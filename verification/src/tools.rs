//! Tool registry — data-driven definitions for all file-tool operations.
//!
//! Each tool is a fixed definition. The UI reads these to generate layout
//! nodes, and the dispatcher matches on `id` to run the operation.

use vstd::prelude::*;
use crate::dispatch::str_eq;

verus! {

/// How the tool accepts input.
#[derive(Debug, Clone)]
pub enum InputKind {
    /// One or more files with extension filter.
    File {
        /// Accepted extensions (e.g., `[".mp4", ".mkv"]`).
        accept: Vec<&'static str>,
        /// Whether multiple files can be selected.
        multiple: bool,
    },
    /// A folder path.
    Folder,
    /// Free-form text input.
    Text {
        /// Placeholder hint.
        placeholder: &'static str,
    },
    /// A URL input.
    Url,
}

/// A single option field rendered in the tool view.
#[derive(Debug, Clone)]
pub enum OptionKind {
    /// Numeric input.
    Number {
        /// Placeholder hint.
        placeholder: Option<&'static str>,
    },
    /// Dropdown select.
    Select {
        /// Available choices.
        choices: Vec<&'static str>,
    },
    /// Range slider over whole numbers.
    Slider {
        /// Minimum value.
        min: u32,
        /// Maximum value.
        max: u32,
        /// Default value.
        default: u32,
    },
    /// Time input (MM:SS).
    Time,
    /// Text input.
    Text {
        /// Placeholder hint.
        placeholder: Option<&'static str>,
    },
    /// Boolean toggle.
    Toggle,
}

/// Definition of a single option in a tool.
#[derive(Debug, Clone)]
pub struct OptionDef {
    /// Key used when passing to the backend.
    pub key: &'static str,
    /// Human-readable label.
    pub label: &'static str,
    /// The type of input control.
    pub kind: OptionKind,
}

/// What the tool produces.
#[derive(Debug, Clone, Copy, PartialEq, Eq, Structural)]
pub enum OutputKind {
    /// A single file.
    File,
    /// Multiple files.
    Files,
    /// Text output.
    Text,
}

/// Tool category for sidebar grouping.
#[derive(Debug, Clone, Copy, PartialEq, Eq, Structural)]
pub enum Category {
    /// Download from URL.
    Download,
    /// Video operations.
    Video,
    /// Image operations.
    Image,
    /// PDF operations.
    Pdf,
    /// QR code and OCR.
    QrOcr,
    /// Archive operations.
    Archive,
}

/// The sidebar label of a category.
pub open spec fn category_label(c: Category) -> Seq<char> {
    match c {
        Category::Download => "DOWNLOAD"@,
        Category::Video => "VIDEO"@,
        Category::Image => "IMAGE"@,
        Category::Pdf => "PDF"@,
        Category::QrOcr => "QR & TEXT"@,
        Category::Archive => "ARCHIVE"@,
    }
}

impl Category {
    /// Display label for the sidebar.
    pub fn label(self) -> (r: &'static str)
        ensures
            r@ == category_label(self),
    {
        match self {
            Category::Download => "DOWNLOAD",
            Category::Video => "VIDEO",
            Category::Image => "IMAGE",
            Category::Pdf => "PDF",
            Category::QrOcr => "QR & TEXT",
            Category::Archive => "ARCHIVE",
        }
    }

    /// All categories in sidebar order.
    pub fn all() -> (r: Vec<Category>)
        ensures
            r@ == seq![Category::Download, Category::Video, Category::Image, Category::Pdf, Category::QrOcr, Category::Archive],
    {
        let r = vec![Category::Download, Category::Video, Category::Image, Category::Pdf, Category::QrOcr, Category::Archive];
        assert(r@ =~= seq![Category::Download, Category::Video, Category::Image, Category::Pdf, Category::QrOcr, Category::Archive]);
        r
    }
}

/// A complete tool definition. The UI is generated from this.
#[derive(Debug, Clone)]
pub struct ToolDef {
    /// Unique identifier.
    pub id: &'static str,
    /// Display label.
    pub label: &'static str,
    /// Unicode glyph icon for the sidebar.
    pub icon: &'static str,
    /// Sidebar category.
    pub category: Category,
    /// How the tool accepts input.
    pub input: InputKind,
    /// Configurable options.
    pub options: Vec<OptionDef>,
    /// What the tool produces.
    pub output: OutputKind,
    /// Action button label.
    pub action_label: &'static str,
}

/// The tool ids, in registry order.
pub open spec fn tool_ids() -> Seq<Seq<char>> {
    seq!["download"@, "trim"@, "convert"@, "resize"@, "compress-image"@, "pdf-split"@, "pdf-merge"@,
        "pdf-compress"@, "qr-gen"@, "qr-decode"@, "zip"@, "unzip"@]
}

/// The tools' display labels, in registry order.
pub open spec fn tool_labels() -> Seq<Seq<char>> {
    seq!["Download"@, "Trim"@, "Convert"@, "Resize"@, "Compress"@, "Split"@, "Merge"@,
        "Compress PDF"@, "Generate QR"@, "Decode QR"@, "Zip"@, "Unzip"@]
}

/// The label shown for tool `id`: the registry label, or the id itself for
/// an id the registry does not know.
pub open spec fn label_for(id: Seq<char>) -> Seq<char> {
    if tool_ids().contains(id) {
        tool_labels()[tool_ids().index_of(id)]
    } else {
        id
    }
}

/// No two registry tools share an id.
pub proof fn lemma_tool_ids_distinct()
    ensures
        forall|i: int, j: int| 0 <= i < j < tool_ids().len() ==> tool_ids()[i] != tool_ids()[j],
{
    reveal_strlit("download");
    reveal_strlit("trim");
    reveal_strlit("convert");
    reveal_strlit("resize");
    reveal_strlit("compress-image");
    reveal_strlit("pdf-split");
    reveal_strlit("pdf-merge");
    reveal_strlit("pdf-compress");
    reveal_strlit("qr-gen");
    reveal_strlit("qr-decode");
    reveal_strlit("zip");
    reveal_strlit("unzip");
    let ids = tool_ids();
    assert forall|i: int, j: int| 0 <= i < j < ids.len() implies ids[i] != ids[j] by {
        if ids[i] == ids[j] {
            assert(ids[i].len() == ids[j].len());
            assert(ids[i][0] == ids[j][0]);
            assert(ids[i][ids[i].len() - 1] == ids[j][ids[j].len() - 1]);
        }
    }
}

/// The text of each string.
pub open spec fn strs(s: Seq<&'static str>) -> Seq<Seq<char>> {
    s.map_values(|c: &'static str| c@)
}

/// The text of an optional string.
pub open spec fn opt_str(o: Option<&'static str>) -> Option<Seq<char>> {
    match o {
        Some(t) => Some(t@),
        None => None,
    }
}

/// How a tool accepts input, as a value of specs.
#[verifier::ext_equal]
pub enum InputView {
    File { accept: Seq<Seq<char>>, multiple: bool },
    Folder,
    Text { placeholder: Seq<char> },
    Url,
}

/// How a tool accepts input, as a value of specs.
pub open spec fn input_view(i: InputKind) -> InputView {
    match i {
        InputKind::File { accept, multiple } => InputView::File { accept: strs(accept@), multiple },
        InputKind::Folder => InputView::Folder,
        InputKind::Text { placeholder } => InputView::Text { placeholder: placeholder@ },
        InputKind::Url => InputView::Url,
    }
}

/// The kind of an option field, as a value of specs.
#[verifier::ext_equal]
pub enum OptionKindView {
    Number { placeholder: Option<Seq<char>> },
    Select { choices: Seq<Seq<char>> },
    Slider { min: u32, max: u32, default: u32 },
    Time,
    Text { placeholder: Option<Seq<char>> },
    Toggle,
}

/// The kind of an option field, as a value of specs.
pub open spec fn kind_view(k: OptionKind) -> OptionKindView {
    match k {
        OptionKind::Number { placeholder } => OptionKindView::Number { placeholder: opt_str(placeholder) },
        OptionKind::Select { choices } => OptionKindView::Select { choices: strs(choices@) },
        OptionKind::Slider { min, max, default } => OptionKindView::Slider { min, max, default },
        OptionKind::Time => OptionKindView::Time,
        OptionKind::Text { placeholder } => OptionKindView::Text { placeholder: opt_str(placeholder) },
        OptionKind::Toggle => OptionKindView::Toggle,
    }
}

/// An option as its key, label and kind.
pub open spec fn option_view(o: OptionDef) -> (Seq<char>, Seq<char>, OptionKindView) {
    (o.key@, o.label@, kind_view(o.kind))
}

/// The options of a list of option definitions, as `option_view`s.
pub open spec fn options_view(opts: Seq<OptionDef>) -> Seq<(Seq<char>, Seq<char>, OptionKindView)> {
    opts.map_values(|o: OptionDef| option_view(o))
}

/// A tool definition as a value of specs.
#[verifier::ext_equal]
pub struct ToolView {
    pub id: Seq<char>,
    pub label: Seq<char>,
    pub icon: Seq<char>,
    pub category: Category,
    pub input: InputView,
    pub options: Seq<(Seq<char>, Seq<char>, OptionKindView)>,
    pub output: OutputKind,
    pub action_label: Seq<char>,
}

/// A tool definition as a value of specs.
pub open spec fn tool_view(t: ToolDef) -> ToolView {
    ToolView {
        id: t.id@,
        label: t.label@,
        icon: t.icon@,
        category: t.category,
        input: input_view(t.input),
        options: options_view(t.options@),
        output: t.output,
        action_label: t.action_label@,
    }
}

/// Input of files with the given extensions.
pub open spec fn files_in(accept: Seq<Seq<char>>, multiple: bool) -> InputView {
    InputView::File { accept, multiple }
}

/// A dropdown option.
pub open spec fn select_opt(key: Seq<char>, label: Seq<char>, choices: Seq<Seq<char>>) -> (Seq<char>, Seq<char>, OptionKindView) {
    (key, label, OptionKindView::Select { choices })
}

/// The tool registry, in sidebar order.
pub open spec fn registry() -> Seq<ToolView> {
    seq![
        ToolView { id: "download"@, label: "Download"@, icon: "\u{2B07}"@, category: Category::Download,
            input: InputView::Url,
            options: seq![
                select_opt("quality"@, "Quality"@, seq!["best"@, "1080p"@, "720p"@, "480p"@, "audio-only"@]),
                select_opt("format"@, "Format"@, seq!["mp4"@, "mkv"@, "webm"@, "mp3"@, "flac"@, "wav"@]),
            ],
            output: OutputKind::File, action_label: "Download"@ },
        ToolView { id: "trim"@, label: "Trim"@, icon: "\u{2702}"@, category: Category::Video,
            input: files_in(seq![".mp4"@, ".mkv"@, ".webm"@, ".avi"@, ".mov"@, ".mp3"@, ".flac"@, ".wav"@], false),
            options: seq![("start"@, "Start"@, OptionKindView::Time), ("end"@, "End"@, OptionKindView::Time)],
            output: OutputKind::File, action_label: "Trim"@ },
        ToolView { id: "convert"@, label: "Convert"@, icon: "\u{21C4}"@, category: Category::Video,
            input: files_in(seq![".mp4"@, ".mkv"@, ".webm"@, ".avi"@, ".mov"@, ".mp3"@, ".flac"@, ".wav"@, ".ogg"@,
                ".png"@, ".jpg"@, ".jpeg"@, ".webp"@, ".gif"@, ".bmp"@, ".tiff"@], false),
            options: seq![select_opt("format"@, "Format"@, seq!["mp4"@, "mkv"@, "webm"@, "mp3"@, "flac"@, "wav"@,
                "ogg"@, "aac"@, "png"@, "jpg"@, "webp"@, "gif"@])],
            output: OutputKind::File, action_label: "Convert"@ },
        ToolView { id: "resize"@, label: "Resize"@, icon: "\u{2922}"@, category: Category::Image,
            input: files_in(seq![".png"@, ".jpg"@, ".jpeg"@, ".webp"@, ".gif"@, ".bmp"@, ".tiff"@], false),
            options: seq![
                ("width"@, "Width (px)"@, OptionKindView::Number { placeholder: None }),
                ("height"@, "Height (px)"@, OptionKindView::Number { placeholder: None }),
                ("scale"@, "Scale (%)"@, OptionKindView::Number { placeholder: None }),
            ],
            output: OutputKind::File, action_label: "Resize"@ },
        ToolView { id: "compress-image"@, label: "Compress"@, icon: "\u{25BC}"@, category: Category::Image,
            input: files_in(seq![".png"@, ".jpg"@, ".jpeg"@, ".webp"@], false),
            options: seq![("quality"@, "Quality"@, OptionKindView::Slider { min: 1, max: 100, default: 80 })],
            output: OutputKind::File, action_label: "Compress"@ },
        ToolView { id: "pdf-split"@, label: "Split"@, icon: "\u{2702}"@, category: Category::Pdf,
            input: files_in(seq![".pdf"@], false),
            options: seq![("ranges"@, "Page ranges"@, OptionKindView::Text { placeholder: Some("1-3, 5, 7-10"@) })],
            output: OutputKind::Files, action_label: "Split"@ },
        ToolView { id: "pdf-merge"@, label: "Merge"@, icon: "\u{2295}"@, category: Category::Pdf,
            input: files_in(seq![".pdf"@], true), options: seq![],
            output: OutputKind::File, action_label: "Merge"@ },
        ToolView { id: "pdf-compress"@, label: "Compress PDF"@, icon: "\u{25BC}"@, category: Category::Pdf,
            input: files_in(seq![".pdf"@], false),
            options: seq![select_opt("quality"@, "Quality"@, seq!["screen"@, "ebook"@, "printer"@])],
            output: OutputKind::File, action_label: "Compress"@ },
        ToolView { id: "qr-gen"@, label: "Generate QR"@, icon: "\u{25A3}"@, category: Category::QrOcr,
            input: InputView::Text { placeholder: "URL or text to encode..."@ }, options: seq![],
            output: OutputKind::File, action_label: "Generate"@ },
        ToolView { id: "qr-decode"@, label: "Decode QR"@, icon: "\u{25A3}"@, category: Category::QrOcr,
            input: files_in(seq![".png"@, ".jpg"@, ".jpeg"@, ".webp"@, ".bmp"@], false), options: seq![],
            output: OutputKind::Text, action_label: "Decode"@ },
        ToolView { id: "zip"@, label: "Zip"@, icon: "\u{1F4E6}"@, category: Category::Archive,
            input: files_in(seq!["*"@], true), options: seq![],
            output: OutputKind::File, action_label: "Zip"@ },
        ToolView { id: "unzip"@, label: "Unzip"@, icon: "\u{1F4E4}"@, category: Category::Archive,
            input: files_in(seq![".zip"@], false), options: seq![],
            output: OutputKind::Files, action_label: "Extract"@ },
    ]
}

/// The kind of the first option with `key`, if there is one.
pub open spec fn first_option(opts: Seq<(Seq<char>, Seq<char>, OptionKindView)>, key: Seq<char>) -> Option<OptionKindView>
    decreases opts.len(),
{
    if opts.len() == 0 {
        None
    } else if opts[0].0 == key {
        Some(opts[0].2)
    } else {
        first_option(opts.drop_first(), key)
    }
}

/// The options of tool `id` (none for an unknown id).
pub open spec fn options_of(id: Seq<char>) -> Seq<(Seq<char>, Seq<char>, OptionKindView)> {
    if tool_ids().contains(id) {
        registry()[tool_ids().index_of(id)].options
    } else {
        seq![]
    }
}

/// The dropdown choices of option `key` of tool `tool`, when that option is a
/// dropdown.
pub open spec fn select_choices(tool: Seq<char>, key: Seq<char>) -> Option<Seq<Seq<char>>> {
    match first_option(options_of(tool), key) {
        Some(OptionKindView::Select { choices }) => Some(choices),
        _ => None,
    }
}

/// The tools' categories, in registry order.
pub open spec fn tool_categories() -> Seq<Category> {
    seq![Category::Download, Category::Video, Category::Video, Category::Image, Category::Image,
        Category::Pdf, Category::Pdf, Category::Pdf, Category::QrOcr, Category::QrOcr,
        Category::Archive, Category::Archive]
}

/// The ids and categories of `tools` are those of the registry.
pub open spec fn is_registry(tools: Seq<ToolDef>) -> bool {
    &&& tools.len() == tool_ids().len()
    &&& forall|k: int| 0 <= k < tools.len() ==> (#[trigger] tools[k]).id@ == tool_ids()[k]
    &&& forall|k: int| 0 <= k < tools.len() ==> (#[trigger] tools[k]).category == tool_categories()[k]
    &&& forall|k: int| 0 <= k < tools.len() ==> (#[trigger] tools[k]).label@ == tool_labels()[k]
    &&& forall|k: int| 0 <= k < tools.len() ==> tool_view(#[trigger] tools[k]) == registry()[k]
}

fn file_input(accept: Vec<&'static str>, multiple: bool) -> (r: InputKind)
    ensures
        r == (InputKind::File { accept, multiple }),
{
    InputKind::File { accept, multiple }
}

fn option(key: &'static str, label: &'static str, kind: OptionKind) -> (r: OptionDef)
    ensures
        r == (OptionDef { key, label, kind }),
{
    OptionDef { key, label, kind }
}

fn select(choices: Vec<&'static str>) -> (r: OptionKind)
    ensures
        r == (OptionKind::Select { choices }),
{
    OptionKind::Select { choices }
}

fn tool(
    id: &'static str,
    label: &'static str,
    icon: &'static str,
    category: Category,
    input: InputKind,
    options: Vec<OptionDef>,
    output: OutputKind,
    action_label: &'static str,
) -> (r: ToolDef)
    ensures
        r.id == id,
        r.category == category,
        r.options == options,
        r.input == input,
        r.output == output,
        r.label == label,
        r.icon == icon,
        r.action_label == action_label,
{
    ToolDef { id, label, icon, category, input, options, output, action_label }
}

/// The complete tool registry.
pub fn tools() -> (r: Vec<ToolDef>)
    ensures
        is_registry(r@),
{
    let mut t: Vec<ToolDef> = Vec::new();
    t.push(tool("download", "Download", "\u{2B07}", Category::Download, InputKind::Url,
        vec![
            option("quality", "Quality", select(vec!["best", "1080p", "720p", "480p", "audio-only"])),
            option("format", "Format", select(vec!["mp4", "mkv", "webm", "mp3", "flac", "wav"])),
        ], OutputKind::File, "Download"));
    t.push(tool("trim", "Trim", "\u{2702}", Category::Video,
        file_input(vec![".mp4", ".mkv", ".webm", ".avi", ".mov", ".mp3", ".flac", ".wav"], false),
        vec![option("start", "Start", OptionKind::Time), option("end", "End", OptionKind::Time)],
        OutputKind::File, "Trim"));
    t.push(tool("convert", "Convert", "\u{21C4}", Category::Video,
        file_input(vec![".mp4", ".mkv", ".webm", ".avi", ".mov", ".mp3", ".flac", ".wav", ".ogg", ".png",
            ".jpg", ".jpeg", ".webp", ".gif", ".bmp", ".tiff"], false),
        vec![option("format", "Format", select(vec!["mp4", "mkv", "webm", "mp3", "flac", "wav", "ogg", "aac", "png", "jpg",
            "webp", "gif"]))],
        OutputKind::File, "Convert"));
    t.push(tool("resize", "Resize", "\u{2922}", Category::Image,
        file_input(vec![".png", ".jpg", ".jpeg", ".webp", ".gif", ".bmp", ".tiff"], false),
        vec![
            option("width", "Width (px)", OptionKind::Number { placeholder: None }),
            option("height", "Height (px)", OptionKind::Number { placeholder: None }),
            option("scale", "Scale (%)", OptionKind::Number { placeholder: None }),
        ], OutputKind::File, "Resize"));
    t.push(tool("compress-image", "Compress", "\u{25BC}", Category::Image,
        file_input(vec![".png", ".jpg", ".jpeg", ".webp"], false),
        vec![option("quality", "Quality", OptionKind::Slider { min: 1, max: 100, default: 80 })],
        OutputKind::File, "Compress"));
    t.push(tool("pdf-split", "Split", "\u{2702}", Category::Pdf, file_input(vec![".pdf"], false),
        vec![option("ranges", "Page ranges", OptionKind::Text { placeholder: Some("1-3, 5, 7-10") })],
        OutputKind::Files, "Split"));
    t.push(tool("pdf-merge", "Merge", "\u{2295}", Category::Pdf, file_input(vec![".pdf"], true),
        Vec::new(), OutputKind::File, "Merge"));
    t.push(tool("pdf-compress", "Compress PDF", "\u{25BC}", Category::Pdf, file_input(vec![".pdf"], false),
        vec![option("quality", "Quality", select(vec!["screen", "ebook", "printer"]))],
        OutputKind::File, "Compress"));
    t.push(tool("qr-gen", "Generate QR", "\u{25A3}", Category::QrOcr,
        InputKind::Text { placeholder: "URL or text to encode..." }, Vec::new(), OutputKind::File, "Generate"));
    t.push(tool("qr-decode", "Decode QR", "\u{25A3}", Category::QrOcr,
        file_input(vec![".png", ".jpg", ".jpeg", ".webp", ".bmp"], false), Vec::new(), OutputKind::Text, "Decode"));
    t.push(tool("zip", "Zip", "\u{1F4E6}", Category::Archive, file_input(vec!["*"], true), Vec::new(),
        OutputKind::File, "Zip"));
    t.push(tool("unzip", "Unzip", "\u{1F4E4}", Category::Archive, file_input(vec![".zip"], false), Vec::new(),
        OutputKind::Files, "Extract"));
    proof {
        assert(tool_view(t@[0]) =~~= registry()[0]);
        assert(tool_view(t@[1]) =~~= registry()[1]);
        assert(tool_view(t@[2]) =~~= registry()[2]);
        assert(tool_view(t@[3]) =~~= registry()[3]);
        assert(tool_view(t@[4]) =~~= registry()[4]);
        assert(tool_view(t@[5]) =~~= registry()[5]);
        assert(tool_view(t@[6]) =~~= registry()[6]);
        assert(tool_view(t@[7]) =~~= registry()[7]);
        assert(tool_view(t@[8]) =~~= registry()[8]);
        assert(tool_view(t@[9]) =~~= registry()[9]);
        assert(tool_view(t@[10]) =~~= registry()[10]);
        assert(tool_view(t@[11]) =~~= registry()[11]);
    }
    t
}

/// Look up a tool by ID.
pub fn find_tool(id: &str) -> (r: Option<ToolDef>)
    ensures
        r is Some <==> tool_ids().contains(id@),
        r matches Some(t) ==> t.id@ == id@ && t.label@ == label_for(id@)
            && tool_view(t) == registry()[tool_ids().index_of(id@)]
            && exists|k: int| 0 <= k < tool_ids().len() && tool_ids()[k] == id@ && t.category == tool_categories()[k],
{
    let all = tools();
    let mut i: usize = 0;
    while i < all.len()
        invariant
            is_registry(all@),
            i <= all@.len(),
            forall|j: int| 0 <= j < i ==> tool_ids()[j] != id@,
        decreases all@.len() - i,
    {
        if str_eq(all[i].id, id) {
            assert(tool_ids()[i as int] == id@);
            proof {
                lemma_tool_ids_distinct();
                assert(tool_ids().contains(id@));
                let k = tool_ids().index_of(id@);
                assert(tool_ids()[k] == id@);
                assert(k == i);
            }
            let mut all = all;
            return Some(all.remove(i));
        }
        i = i + 1;
    }
    assert forall|j: int| 0 <= j < tool_ids().len() implies tool_ids()[j] != id@ by {}
    None
}

/// The first `n` registry tools that are in category `c`, in order.
pub open spec fn in_category(c: Category, n: int) -> Seq<ToolView>
    decreases n,
{
    if n <= 0 {
        Seq::empty()
    } else if registry()[n - 1].category == c {
        in_category(c, n - 1).push(registry()[n - 1])
    } else {
        in_category(c, n - 1)
    }
}

/// All tools in a given category, in registry order.
pub fn tools_in_category(category: Category) -> (r: Vec<ToolDef>)
    ensures
        r@.map_values(|t: ToolDef| tool_view(t)) == in_category(category, 12),
{
    let mut all = tools();
    let mut out: Vec<ToolDef> = Vec::new();
    let ghost full = all@;
    let mut i: usize = 0;
    while all.len() > 0
        invariant
            is_registry(full),
            i <= 12,
            all@ == full.skip(i as int),
            out@.map_values(|t: ToolDef| tool_view(t)) == in_category(category, i as int),
        decreases all@.len(),
    {
        let t = all.remove(0);
        assert(t == full[i as int]);
        assert(tool_view(t) == registry()[i as int]);
        assert(all@ =~= full.skip(i + 1));
        let ghost before = out@;
        if t.category == category {
            out.push(t);
            assert(out@.map_values(|t: ToolDef| tool_view(t)) =~= before.map_values(|t: ToolDef| tool_view(t)).push(tool_view(t)));
        }
        i = i + 1;
    }
    assert(i == 12);
    out
}

/// The sidebar item focused after moving by `delta` (down when positive,
/// up otherwise) from `current` (the first item when none is focused) among
/// `tool_count` items, wrapping around at both ends; nothing changes when
/// there are no items.
pub fn sidebar_navigate(current: Option<usize>, tool_count: usize, delta: i32) -> (next: Option<usize>)
    ensures
        tool_count == 0 ==> next == current,
        tool_count > 0 ==> next == Some(({
            let c = match current { Some(c) => c as int, None => 0 };
            if delta > 0 {
                if c + 1 < tool_count { c + 1 } else { 0 }
            } else if c > 0 {
                c - 1
            } else {
                tool_count - 1
            }
        }) as usize),
{
    if tool_count == 0 {
        return current;
    }
    let c = match current {
        Some(c) => c,
        None => 0,
    };
    let next = if delta > 0 {
        if c < tool_count - 1 { c + 1 } else { 0 }
    } else if c > 0 {
        c - 1
    } else {
        tool_count - 1
    };
    Some(next)
}

/// The positions of the tool items (not headers) among the sidebar items,
/// in order.
pub open spec fn tool_positions(is_header: Seq<bool>) -> Seq<int>
    decreases is_header.len(),
{
    if is_header.len() == 0 {
        Seq::empty()
    } else {
        let prev = tool_positions(is_header.drop_last());
        if is_header.last() { prev } else { prev.push(is_header.len() - 1) }
    }
}

/// The sidebar item that has keyboard focus: the focus index counts tool
/// items only (headers are skipped); `None` without focus or when the index
/// is past the last tool item.
pub fn focused_sidebar_item(is_header: &Vec<bool>, focus: Option<usize>) -> (r: Option<usize>)
    ensures
        r == (match focus {
            Some(f) => if (f as int) < tool_positions(is_header@).len() {
                Some(tool_positions(is_header@)[f as int] as usize)
            } else {
                None::<usize>
            },
            None => None::<usize>,
        }),
{
    if focus.is_none() {
        return None;
    }
    let f = focus.unwrap();
    let mut count: usize = 0;
    let mut i: usize = 0;
    while i < is_header.len()
        invariant
            focus == Some(f),
            i <= is_header@.len(),
            count as int == tool_positions(is_header@.take(i as int)).len(),
            count <= i,
            tool_positions(is_header@.take(i as int)).len() <= f as int,
            forall|k: int| 0 <= k < tool_positions(is_header@.take(i as int)).len()
                ==> #[trigger] tool_positions(is_header@.take(i as int))[k] == tool_positions(is_header@)[k],
            forall|k: int| 0 <= k < tool_positions(is_header@.take(i as int)).len()
                ==> 0 <= #[trigger] tool_positions(is_header@.take(i as int))[k] < i,
        decreases is_header@.len() - i,
    {
        proof {
            lemma_tool_positions_prefix(is_header@, i as int + 1);
            assert(is_header@.take(i as int + 1).drop_last() =~= is_header@.take(i as int));
        }
        if !is_header[i] {
            if count == f {
                proof {
                    let a = tool_positions(is_header@.take(i as int));
                    let b = tool_positions(is_header@.take(i as int + 1));
                    assert(b == a.push(i as int));
                    assert(tool_positions(is_header@)[f as int] == b[f as int]);
                }
                return Some(i);
            }
            count = count + 1;
        }
        i = i + 1;
    }
    assert(is_header@.take(is_header@.len() as int) =~= is_header@);
    None
}

proof fn lemma_tool_positions_prefix(h: Seq<bool>, n: int)
    requires
        0 <= n <= h.len(),
    ensures
        tool_positions(h.take(n)).len() <= tool_positions(h).len(),
        forall|k: int| 0 <= k < tool_positions(h.take(n)).len()
            ==> #[trigger] tool_positions(h.take(n))[k] == tool_positions(h)[k],
    decreases h.len() - n,
{
    if n < h.len() {
        lemma_tool_positions_prefix(h, n + 1);
        assert(h.take(n + 1).drop_last() =~= h.take(n));
        let a = tool_positions(h.take(n));
        let b = tool_positions(h.take(n + 1));
        assert(b == (if h.take(n + 1).last() { a } else { a.push(n) }));
        assert forall|k: int| 0 <= k < a.len() implies #[trigger] a[k] == tool_positions(h)[k] by {
            assert(b[k] == a[k]);
        }
    } else {
        assert(h.take(n) =~= h);
    }
}

/// One sidebar item: a category header, or a tool (by id).
#[derive(Debug, Clone, Copy, PartialEq, Eq)]
pub enum SidebarEntry {
    Header(Category),
    Tool(&'static str),
}

/// A sidebar item with the tool id as text.
pub enum SidebarEntryView {
    Header(Category),
    Tool(Seq<char>),
}

/// A sidebar item by its text.
pub open spec fn entry_view(e: SidebarEntry) -> SidebarEntryView {
    match e {
        SidebarEntry::Header(c) => SidebarEntryView::Header(c),
        SidebarEntry::Tool(id) => SidebarEntryView::Tool(id@),
    }
}

/// The categories in sidebar order.
pub open spec fn sidebar_categories() -> Seq<Category> {
    seq![Category::Download, Category::Video, Category::Image, Category::Pdf, Category::QrOcr, Category::Archive]
}

/// The sidebar items of the first `n` categories: for each, its header, then
/// its tools in registry order.
pub open spec fn sidebar_view(n: int) -> Seq<SidebarEntryView>
    decreases n,
{
    if n <= 0 {
        Seq::empty()
    } else {
        let c = sidebar_categories()[n - 1];
        sidebar_view(n - 1).push(SidebarEntryView::Header(c))
            + in_category(c, 12).map_values(|t: ToolView| SidebarEntryView::Tool(t.id))
    }
}

/// The sidebar items, top to bottom: one header per category, each followed
/// by that category's tools.
pub fn sidebar_entries() -> (r: Vec<SidebarEntry>)
    ensures
        r@.map_values(|e: SidebarEntry| entry_view(e)) == sidebar_view(6),
{
    let cats = Category::all();
    let mut r: Vec<SidebarEntry> = Vec::new();
    let mut k: usize = 0;
    while k < cats.len()
        invariant
            cats@ == sidebar_categories(),
            k <= 6,
            r@.map_values(|e: SidebarEntry| entry_view(e)) == sidebar_view(k as int),
        decreases 6 - k,
    {
        let c = cats[k];
        let ghost before = r@.map_values(|e: SidebarEntry| entry_view(e));
        r.push(SidebarEntry::Header(c));
        assert(r@.map_values(|e: SidebarEntry| entry_view(e)) =~= before.push(SidebarEntryView::Header(c)));
        let ts = tools_in_category(c);
        let ghost mid = r@.map_values(|e: SidebarEntry| entry_view(e));
        let ghost tv = ts@.map_values(|t: ToolDef| tool_view(t));
        let mut j: usize = 0;
        while j < ts.len()
            invariant
                j <= ts@.len(),
                tv == ts@.map_values(|t: ToolDef| tool_view(t)),
                r@.map_values(|e: SidebarEntry| entry_view(e))
                    =~= mid + tv.take(j as int).map_values(|t: ToolView| SidebarEntryView::Tool(t.id)),
            decreases ts@.len() - j,
        {
            let ghost prev = r@.map_values(|e: SidebarEntry| entry_view(e));
            r.push(SidebarEntry::Tool(ts[j].id));
            assert(tv[j as int].id == ts@[j as int].id@);
            assert(r@.map_values(|e: SidebarEntry| entry_view(e)) =~= prev.push(SidebarEntryView::Tool(ts@[j as int].id@)));
            assert(tv.take(j as int + 1).map_values(|t: ToolView| SidebarEntryView::Tool(t.id))
                =~= tv.take(j as int).map_values(|t: ToolView| SidebarEntryView::Tool(t.id)).push(SidebarEntryView::Tool(tv[j as int].id)));
            j = j + 1;
        }
        assert(tv.take(ts@.len() as int) =~= tv);
        k = k + 1;
    }
    r
}

/// Whether each sidebar item is a header.
pub open spec fn header_flags(v: Seq<SidebarEntryView>) -> Seq<bool> {
    v.map_values(|e: SidebarEntryView| e is Header)
}

/// The ids of the tool items among `v`, in order.
pub open spec fn tool_entry_ids(v: Seq<SidebarEntryView>) -> Seq<Seq<char>>
    decreases v.len(),
{
    if v.len() == 0 {
        Seq::empty()
    } else {
        let prev = tool_entry_ids(v.drop_last());
        match v.last() {
            SidebarEntryView::Tool(id) => prev.push(id),
            SidebarEntryView::Header(_) => prev,
        }
    }
}

/// The keyboard focus after clicking the tool `tool_id` in the sidebar: its
/// position among the tool items (the index that keyboard navigation, Enter
/// and the focus highlight read); `None` when no tool item has that id.
pub fn focus_after_click(entries: &Vec<SidebarEntry>, tool_id: &str) -> (r: Option<usize>)
    ensures
        ({
            let ids = tool_entry_ids(entries@.map_values(|e: SidebarEntry| entry_view(e)));
            match r {
                Some(k) => k < ids.len() && ids[k as int] == tool_id@
                    && forall|j: int| 0 <= j < k ==> #[trigger] ids[j] != tool_id@,
                None => forall|j: int| 0 <= j < ids.len() ==> #[trigger] ids[j] != tool_id@,
            }
        }),
{
    let ghost view = entries@.map_values(|e: SidebarEntry| entry_view(e));
    let mut count: usize = 0;
    let mut i: usize = 0;
    while i < entries.len()
        invariant
            i <= entries@.len(),
            view == entries@.map_values(|e: SidebarEntry| entry_view(e)),
            count as int == tool_entry_ids(view.take(i as int)).len(),
            count <= i,
            forall|j: int| 0 <= j < count ==> #[trigger] tool_entry_ids(view.take(i as int))[j] != tool_id@,
            forall|j: int| 0 <= j < count ==> #[trigger] tool_entry_ids(view.take(i as int))[j] == tool_entry_ids(view)[j],
        decreases entries@.len() - i,
    {
        proof {
            lemma_tool_entry_ids_prefix(view, i as int + 1);
            assert(view.take(i as int + 1).drop_last() =~= view.take(i as int));
        }
        match entries[i] {
            SidebarEntry::Tool(id) => {
                let ghost a = tool_entry_ids(view.take(i as int));
                assert(tool_entry_ids(view.take(i as int + 1)) == a.push(id@));
                if str_eq(id, tool_id) {
                    proof {
                        let ids = tool_entry_ids(view);
                        assert(ids[count as int] == tool_entry_ids(view.take(i as int + 1))[count as int]);
                        assert(count < ids.len());
                        assert forall|j: int| 0 <= j < count implies #[trigger] ids[j] != tool_id@ by {
                            assert(tool_entry_ids(view.take(i as int))[j] == ids[j]);
                        }
                    }
                    return Some(count);
                }
                count = count + 1;
            },
            SidebarEntry::Header(_) => {},
        }
        i = i + 1;
    }
    assert(view.take(entries@.len() as int) =~= view);
    None
}

proof fn lemma_tool_entry_ids_prefix(v: Seq<SidebarEntryView>, n: int)
    requires
        0 <= n <= v.len(),
    ensures
        tool_entry_ids(v.take(n)).len() <= tool_entry_ids(v).len(),
        forall|k: int| 0 <= k < tool_entry_ids(v.take(n)).len()
            ==> #[trigger] tool_entry_ids(v.take(n))[k] == tool_entry_ids(v)[k],
    decreases v.len() - n,
{
    if n < v.len() {
        lemma_tool_entry_ids_prefix(v, n + 1);
        assert(v.take(n + 1).drop_last() =~= v.take(n));
        let a = tool_entry_ids(v.take(n));
        let b = tool_entry_ids(v.take(n + 1));
        assert forall|k: int| 0 <= k < a.len() implies #[trigger] a[k] == tool_entry_ids(v)[k] by {
            assert(b[k] == a[k]);
        }
    } else {
        assert(v.take(n) =~= v);
    }
}

} // verus!
