//! Tool dispatch helpers: parsing of tool options into the values the
//! tools are run with.

use vstd::prelude::*;
use vstd::string::{StrSliceExecFns, StringExecFns};
use crate::text::{chars_of, find_char, first_index, parse_u32, parse_u32_spec, trim, trim_range};
use crate::form::{FormState, DropStates, entry_of, keyed, string_views};
use crate::tools::{find_tool, lemma_tool_ids_distinct, tool_ids, select_choices, first_option, options_view, option_view, OptionDef, OptionKind};
use crate::jobs::file_name_of;

verus! {

/// `s` split at every `c` (what `str::split` yields, empty pieces included).
pub open spec fn split_on(s: Seq<char>, c: char) -> Seq<Seq<char>>
    decreases s.len(),
{
    let i = first_index(s, c);
    proof {
        lemma_first_index_bounds(s, c);
    }
    if i >= s.len() {
        seq![s]
    } else {
        seq![s.take(i)] + split_on(s.skip(i + 1), c)
    }
}

/// `first_index` lies within `0..=s.len()`.
pub proof fn lemma_first_index_bounds(s: Seq<char>, c: char)
    ensures
        0 <= first_index(s, c) <= s.len(),
        first_index(s, c) < s.len() ==> s[first_index(s, c)] == c,
        forall|j: int| 0 <= j < first_index(s, c) ==> s[j] != c,
    decreases s.len(),
{
    if s.len() > 0 && s[0] != c {
        lemma_first_index_bounds(s.drop_first(), c);
        assert forall|j: int| 0 <= j < first_index(s, c) implies s[j] != c by {
            if j > 0 {
                assert(s[j] == s.drop_first()[j - 1]);
            }
        }
    }
}

/// What one comma-separated piece of a page-range list contributes: nothing
/// for a blank piece, a range `(start, end)`, or an error message.
pub open spec fn piece_outcome(raw: Seq<char>) -> Option<Result<(u32, u32), Seq<char>>> {
    let part = trim(raw);
    if part.len() == 0 {
        None
    } else {
        let i = first_index(part, '-');
        if i < part.len() {
            let a = part.take(i);
            let b = part.skip(i + 1);
            match parse_u32_spec(trim(a)) {
                None => Some(Err("Invalid page: "@ + a)),
                Some(start) => match parse_u32_spec(trim(b)) {
                    None => Some(Err("Invalid page: "@ + b)),
                    Some(end) => if start == 0 || end == 0 || start > end {
                        Some(Err("Invalid range: "@ + part))
                    } else {
                        Some(Ok((start, end)))
                    },
                },
            }
        } else {
            match parse_u32_spec(part) {
                None => Some(Err("Invalid page: "@ + part)),
                Some(page) => if page == 0 {
                    Some(Err("Page numbers start at 1"@))
                } else {
                    Some(Ok((page, page)))
                },
            }
        }
    }
}

/// The ranges of `pieces`, in order, appended to `acc`; the first error
/// stops the scan.
pub open spec fn collect_ranges(pieces: Seq<Seq<char>>, acc: Seq<(u32, u32)>) -> Result<Seq<(u32, u32)>, Seq<char>>
    decreases pieces.len(),
{
    if pieces.len() == 0 {
        Ok(acc)
    } else {
        match piece_outcome(pieces[0]) {
            None => collect_ranges(pieces.drop_first(), acc),
            Some(Ok(r)) => collect_ranges(pieces.drop_first(), acc.push(r)),
            Some(Err(e)) => Err(e),
        }
    }
}

/// The meaning of a page-range list such as `"1-3, 5, 7-10"`.
pub open spec fn page_ranges_spec(s: Seq<char>) -> Result<Seq<(u32, u32)>, Seq<char>> {
    match collect_ranges(split_on(s, ','), seq![]) {
        Ok(rs) => if rs.len() == 0 {
            Err("No page ranges specified"@)
        } else {
            Ok(rs)
        },
        Err(e) => Err(e),
    }
}

/// An error message made of a fixed prefix and a piece of the input.
fn message(prefix: &str, s: &str, from: usize, to: usize) -> (m: String)
    requires
        from <= to <= s@.len(),
    ensures
        m@ == prefix@ + s@.subrange(from as int, to as int),
{
    let mut m = prefix.to_owned();
    m.append(s.substring_char(from, to));
    m
}

/// The outcome of the piece `cs[st..k]` of `s`.
fn parse_piece(s: &str, cs: &Vec<char>, st: usize, k: usize) -> (r: Option<Result<(u32, u32), String>>)
    requires
        cs@ == s@,
        st <= k <= cs@.len(),
    ensures
        piece_outcome(cs@.subrange(st as int, k as int)) == match r {
            None => None,
            Some(Ok(p)) => Some(Ok(p)),
            Some(Err(e)) => Some(Err(e@)),
        },
{
    let ghost raw = cs@.subrange(st as int, k as int);
    let (lo, hi) = trim_range(cs, st, k);
    let ghost part = cs@.subrange(lo as int, hi as int);
    assert(part == trim(raw));
    if lo == hi {
        return None;
    }
    let i = find_char(cs, lo, hi, '-');
    if i < hi {
        let ghost a = part.take(i - lo);
        let ghost b = part.skip(i - lo + 1);
        assert(a =~= cs@.subrange(lo as int, i as int));
        assert(b =~= cs@.subrange(i + 1, hi as int));
        let (alo, ahi) = trim_range(cs, lo, i);
        let start = parse_u32(cs, alo, ahi);
        match start {
            None => {
                return Some(Err(message("Invalid page: ", s, lo, i)));
            },
            Some(start) => {
                let (blo, bhi) = trim_range(cs, i + 1, hi);
                let end = parse_u32(cs, blo, bhi);
                match end {
                    None => {
                        return Some(Err(message("Invalid page: ", s, i + 1, hi)));
                    },
                    Some(end) => {
                        if start == 0 || end == 0 || start > end {
                            return Some(Err(message("Invalid range: ", s, lo, hi)));
                        }
                        return Some(Ok((start, end)));
                    },
                }
            },
        }
    } else {
        match parse_u32(cs, lo, hi) {
            None => Some(Err(message("Invalid page: ", s, lo, hi))),
            Some(page) => {
                if page == 0 {
                    Some(Err("Page numbers start at 1".to_owned()))
                } else {
                    Some(Ok((page, page)))
                }
            },
        }
    }
}

/// Parse a page-range list such as `"1-3, 5, 7-10"` into inclusive
/// `(start, end)` pairs, pages counting from 1.
pub fn parse_page_ranges(s: &str) -> (r: Result<Vec<(u32, u32)>, String>)
    ensures
        page_ranges_spec(s@) == match r {
            Ok(v) => Ok(v@),
            Err(e) => Err(e@),
        },
{
    let cs = chars_of(s);
    let n = cs.len();
    let mut ranges: Vec<(u32, u32)> = Vec::new();
    let mut st: usize = 0;
    assert(cs@.skip(0) =~= cs@);
    loop
        invariant_except_break
            collect_ranges(split_on(cs@, ','), seq![]) == collect_ranges(split_on(cs@.skip(st as int), ','), ranges@),
        invariant
            cs@ == s@,
            n == cs@.len(),
            st <= n,
        ensures
            collect_ranges(split_on(cs@, ','), seq![]) == Ok::<Seq<(u32, u32)>, Seq<char>>(ranges@),
        decreases n - st,
    {
        let k = find_char(&cs, st, n, ',');
        let ghost rest = cs@.skip(st as int);
        assert(rest =~= cs@.subrange(st as int, n as int));
        let ghost pieces = split_on(rest, ',');
        proof {
            lemma_first_index_bounds(rest, ',');
            if k < n {
                assert(rest.take(k - st) =~= cs@.subrange(st as int, k as int));
                assert(rest.skip(k - st + 1) =~= cs@.skip(k + 1));
                assert(pieces[0] == cs@.subrange(st as int, k as int));
                assert(pieces.drop_first() =~= split_on(cs@.skip(k + 1), ','));
            } else {
                assert(pieces =~= seq![rest]);
                assert(pieces[0] == cs@.subrange(st as int, k as int));
                assert(pieces.drop_first() =~= Seq::<Seq<char>>::empty());
            }
        }
        match parse_piece(s, &cs, st, k) {
            None => {},
            Some(Ok(p)) => {
                ranges.push(p);
            },
            Some(Err(e)) => {
                return Err(e);
            },
        }
        if k >= n {
            assert(collect_ranges(Seq::<Seq<char>>::empty(), ranges@) == Ok::<Seq<(u32, u32)>, Seq<char>>(ranges@));
            break;
        }
        st = k + 1;
    }
    if ranges.len() == 0 {
        return Err("No page ranges specified".to_owned());
    }
    Ok(ranges)
}

/// What `str::to_lowercase` gives for a string: its Unicode lowercase form.
pub uninterp spec fn lowercase(s: Seq<char>) -> Seq<char>;

/// The extension of a file name, as `Path::extension` documents it: none
/// without an embedded `.`, none when the only `.` is the first character,
/// otherwise the part after the last `.`.
pub open spec fn extension_in_name(n: Seq<char>) -> Option<Seq<char>> {
    if exists|k: int| 0 < k < n.len() && n[k] == '.' {
        let k = choose|k: int| 0 < k < n.len() && n[k] == '.' && forall|j: int| k < j < n.len() ==> n[j] != '.';
        Some(n.subrange(k + 1, n.len() as int))
    } else {
        None
    }
}

/// What `Path::extension` gives for a path string (as text): the extension
/// of its file name; none when it has no file name.
pub open spec fn extension_of(path: Seq<char>) -> Option<Seq<char>> {
    match file_name_of(path) {
        Some(n) => extension_in_name(n),
        None => None,
    }
}

/// Calls `str::to_lowercase`; the result is named `lowercase`.
#[verifier::external_body]
fn to_lowercase(s: &str) -> (r: String)
    ensures
        r@ == lowercase(s@),
{
    s.to_lowercase()
}

/// Calls `Path::extension` on `path`: the extension of the path's file name
/// (`extension_of`). A `&str` path is valid UTF-8, so the conversion back to
/// text does not fail.
#[verifier::external_body]
fn path_extension(path: &str) -> (r: Option<String>)
    ensures
        match r {
            Some(e) => extension_of(path@) == Some(e@),
            None => extension_of(path@) is None,
        },
{
    match std::path::Path::new(path).extension() {
        Some(e) => match e.to_str() {
            Some(t) => Some(t.to_owned()),
            None => None,
        },
        None => None,
    }
}

/// Whether two strings have the same characters.
pub fn str_eq(a: &str, b: &str) -> (r: bool)
    ensures
        r == (a@ == b@),
{
    let n = a.unicode_len();
    if n != b.unicode_len() {
        return false;
    }
    let mut i: usize = 0;
    while i < n
        invariant
            n == a@.len(),
            n == b@.len(),
            i <= n,
            forall|j: int| 0 <= j < i ==> a@[j] == b@[j],
        decreases n - i,
    {
        if a.get_char(i) != b.get_char(i) {
            return false;
        }
        i = i + 1;
    }
    assert(a@ =~= b@);
    true
}

/// Video quality preset of a download.
#[derive(Debug, Clone, PartialEq, Eq)]
pub enum Quality {
    Best,
    High,
    Medium,
    Low,
    Custom(String),
}

/// Container or codec of a tool's output.
#[derive(Debug, Clone, Copy, PartialEq, Eq, Structural)]
pub enum OutputFormat {
    Mp4,
    Mkv,
    Webm,
    Mp3,
    Flac,
    Wav,
    Ogg,
    Aac,
    Png,
    Jpg,
    Webp,
    Gif,
    Opus,
    Av1,
    Hevc,
    Avif,
    Original,
}

/// Map a quality choice (case-insensitive) to a preset; `audio-only`
/// downloads at the best quality, anything unknown is passed on lowercased.
pub fn parse_quality(s: &str) -> (q: Quality)
    ensures
        ({
            let l = lowercase(s@);
            if l == "best"@ {
                q == Quality::Best
            } else if l == "1080p"@ {
                q == Quality::High
            } else if l == "720p"@ {
                q == Quality::Medium
            } else if l == "480p"@ {
                q == Quality::Low
            } else if l == "audio-only"@ {
                q == Quality::Best
            } else {
                q matches Quality::Custom(c) && c@ == l
            }
        }),
        quality_view(q) == quality_of(lowercase(s@)),
{
    quality_from_lowercase(to_lowercase(s))
}

/// The preset a lowercased quality choice `l` selects.
pub fn quality_from_lowercase(l: String) -> (q: Quality)
    ensures
        ({
            let l = l@;
            if l == "best"@ {
                q == Quality::Best
            } else if l == "1080p"@ {
                q == Quality::High
            } else if l == "720p"@ {
                q == Quality::Medium
            } else if l == "480p"@ {
                q == Quality::Low
            } else if l == "audio-only"@ {
                q == Quality::Best
            } else {
                q matches Quality::Custom(c) && c@ == l
            }
        }),
        quality_view(q) == quality_of(l@),
{
    proof {
        reveal_strlit("best");
        reveal_strlit("1080p");
        reveal_strlit("720p");
        reveal_strlit("480p");
        reveal_strlit("audio-only");
        assert("1080p"@ != "best"@) by { if "1080p"@ == "best"@ { assert("1080p"@[0] == "best"@[0]); assert("1080p"@.len() == "best"@.len()); } }
        assert("720p"@ != "best"@) by { if "720p"@ == "best"@ { assert("720p"@[0] == "best"@[0]); assert("720p"@.len() == "best"@.len()); } }
        assert("720p"@ != "1080p"@) by { if "720p"@ == "1080p"@ { assert("720p"@[0] == "1080p"@[0]); assert("720p"@.len() == "1080p"@.len()); } }
        assert("480p"@ != "best"@) by { if "480p"@ == "best"@ { assert("480p"@[0] == "best"@[0]); assert("480p"@.len() == "best"@.len()); } }
        assert("480p"@ != "1080p"@) by { if "480p"@ == "1080p"@ { assert("480p"@[0] == "1080p"@[0]); assert("480p"@.len() == "1080p"@.len()); } }
        assert("480p"@ != "720p"@) by { if "480p"@ == "720p"@ { assert("480p"@[0] == "720p"@[0]); assert("480p"@.len() == "720p"@.len()); } }
        assert("audio-only"@ != "best"@) by { if "audio-only"@ == "best"@ { assert("audio-only"@[0] == "best"@[0]); assert("audio-only"@.len() == "best"@.len()); } }
        assert("audio-only"@ != "1080p"@) by { if "audio-only"@ == "1080p"@ { assert("audio-only"@[0] == "1080p"@[0]); assert("audio-only"@.len() == "1080p"@.len()); } }
        assert("audio-only"@ != "720p"@) by { if "audio-only"@ == "720p"@ { assert("audio-only"@[0] == "720p"@[0]); assert("audio-only"@.len() == "720p"@.len()); } }
        assert("audio-only"@ != "480p"@) by { if "audio-only"@ == "480p"@ { assert("audio-only"@[0] == "480p"@[0]); assert("audio-only"@.len() == "480p"@.len()); } }
    }
    let t = l.as_str();
    if str_eq(t, "best") {
        Quality::Best
    } else if str_eq(t, "1080p") {
        Quality::High
    } else if str_eq(t, "720p") {
        Quality::Medium
    } else if str_eq(t, "480p") {
        Quality::Low
    } else if str_eq(t, "audio-only") {
        Quality::Best
    } else {
        Quality::Custom(l)
    }
}

/// The output format a (lowercased) format name selects.
pub open spec fn output_format_of(l: Seq<char>) -> OutputFormat {
    if l == "mp4"@ { OutputFormat::Mp4 }
    else if l == "mkv"@ { OutputFormat::Mkv }
    else if l == "webm"@ { OutputFormat::Webm }
    else if l == "mp3"@ { OutputFormat::Mp3 }
    else if l == "flac"@ { OutputFormat::Flac }
    else if l == "wav"@ { OutputFormat::Wav }
    else if l == "ogg"@ { OutputFormat::Ogg }
    else if l == "aac"@ { OutputFormat::Aac }
    else if l == "png"@ { OutputFormat::Png }
    else if l == "jpg"@ || l == "jpeg"@ { OutputFormat::Jpg }
    else if l == "webp"@ { OutputFormat::Webp }
    else if l == "gif"@ { OutputFormat::Gif }
    else if l == "opus"@ { OutputFormat::Opus }
    else if l == "av1"@ { OutputFormat::Av1 }
    else if l == "hevc"@ || l == "h265"@ { OutputFormat::Hevc }
    else if l == "avif"@ { OutputFormat::Avif }
    else { OutputFormat::Original }
}

/// Map a format name (case-insensitive) to an output format; unknown names
/// keep the input's format.
pub fn parse_output_format(s: &str) -> (f: OutputFormat)
    ensures
        f == output_format_of(lowercase(s@)),
{
    let l = to_lowercase(s);
    output_format_from_lowercase(l.as_str())
}

/// The output format a lowercased format name `t` selects.
pub fn output_format_from_lowercase(t: &str) -> (f: OutputFormat)
    ensures
        f == output_format_of(t@),
{
    if str_eq(t, "mp4") { OutputFormat::Mp4 }
    else if str_eq(t, "mkv") { OutputFormat::Mkv }
    else if str_eq(t, "webm") { OutputFormat::Webm }
    else if str_eq(t, "mp3") { OutputFormat::Mp3 }
    else if str_eq(t, "flac") { OutputFormat::Flac }
    else if str_eq(t, "wav") { OutputFormat::Wav }
    else if str_eq(t, "ogg") { OutputFormat::Ogg }
    else if str_eq(t, "aac") { OutputFormat::Aac }
    else if str_eq(t, "png") { OutputFormat::Png }
    else if str_eq(t, "jpg") || str_eq(t, "jpeg") { OutputFormat::Jpg }
    else if str_eq(t, "webp") { OutputFormat::Webp }
    else if str_eq(t, "gif") { OutputFormat::Gif }
    else if str_eq(t, "opus") { OutputFormat::Opus }
    else if str_eq(t, "av1") { OutputFormat::Av1 }
    else if str_eq(t, "hevc") || str_eq(t, "h265") { OutputFormat::Hevc }
    else if str_eq(t, "avif") { OutputFormat::Avif }
    else { OutputFormat::Original }
}

/// Lowercased extensions of the image formats the image tools read.
pub open spec fn image_ext(l: Seq<char>) -> bool {
    l == "png"@ || l == "jpg"@ || l == "jpeg"@ || l == "webp"@ || l == "gif"@ || l == "bmp"@
        || l == "tiff"@ || l == "avif"@
}

/// Whether a path names an image by its extension (case-insensitive).
pub fn is_image_ext(path: &str) -> (r: bool)
    ensures
        r == (extension_of(path@) matches Some(e) && image_ext(lowercase(e))),
{
    match path_extension(path) {
        None => false,
        Some(e) => {
            let l = to_lowercase(e.as_str());
            is_image_ext_lowercase(l.as_str())
        },
    }
}

/// Whether a lowercased extension `t` is one of the image formats.
pub fn is_image_ext_lowercase(t: &str) -> (r: bool)
    ensures
        r == image_ext(t@),
{
    str_eq(t, "png") || str_eq(t, "jpg") || str_eq(t, "jpeg") || str_eq(t, "webp")
        || str_eq(t, "gif") || str_eq(t, "bmp") || str_eq(t, "tiff") || str_eq(t, "avif")
}


/// The trimmed text typed into field `key` of `tool`, unless empty.
pub open spec fn text_of(entries: Seq<(Seq<char>, Seq<char>, Seq<char>)>, tool: Seq<char>, key: Seq<char>) -> Option<Seq<char>> {
    match entry_of(entries, tool, key) {
        Some(t) => if trim(t).len() > 0 { Some(trim(t)) } else { None },
        None => None,
    }
}

/// The text of an optional string.
pub open spec fn opt_string_view(r: Option<String>) -> Option<Seq<char>> {
    match r {
        Some(s) => Some(s@),
        None => None,
    }
}

/// `s` without leading and trailing white space.
pub fn trimmed(s: &str) -> (r: String)
    ensures
        r@ == trim(s@),
{
    let cs = chars_of(s);
    let (a, b) = trim_range(&cs, 0, cs.len());
    assert(cs@.subrange(0, cs@.len() as int) =~= s@);
    String::from_str(s.substring_char(a, b))
}

/// The trimmed text of field `key` of `tool`, unless it is empty.
pub fn text_val(form: &FormState, tool: &'static str, key: &'static str) -> (r: Option<String>)
    requires
        form.wf(),
    ensures
        opt_string_view(r) == text_of(form.entries(), tool@, key@),
{
    match form.get(tool, key) {
        Some(st) => {
            let t = trimmed(st.text.as_str());
            if t.as_str().unicode_len() > 0 {
                Some(t)
            } else {
                None
            }
        },
        None => None,
    }
}

/// The chosen value of dropdown `key` of `tool`: the choice at the selected
/// index (the first when none was selected, empty when out of range); none
/// when `tool` has no dropdown `key`.
pub open spec fn select_of(selects: Seq<(Seq<char>, Seq<char>, usize)>, tool: Seq<char>, key: Seq<char>) -> Option<Seq<char>> {
    match select_choices(tool, key) {
        None => None,
        Some(cs) => {
            let idx = match entry_of(selects, tool, key) {
                Some(i) => i as int,
                None => 0,
            };
            Some(if idx < cs.len() { cs[idx] } else { ""@ })
        },
    }
}

proof fn lemma_first_option_at(opts: Seq<OptionDef>, key: Seq<char>, i: int)
    requires
        0 <= i <= opts.len(),
        forall|j: int| 0 <= j < i ==> (#[trigger] opts[j]).key@ != key,
        i < opts.len() ==> opts[i].key@ == key,
    ensures
        first_option(options_view(opts), key) == if i < opts.len() { Some(option_view(opts[i]).2) } else { None },
    decreases i,
{
    let v = options_view(opts);
    if opts.len() == 0 {
    } else if i == 0 {
        assert(v[0] == option_view(opts[0]));
    } else {
        assert(v[0] == option_view(opts[0]));
        assert(options_view(opts.drop_first()) =~= v.drop_first());
        assert forall|j: int| 0 <= j < i - 1 implies (#[trigger] opts.drop_first()[j]).key@ != key by {
            assert(opts.drop_first()[j] == opts[j + 1]);
        }
        lemma_first_option_at(opts.drop_first(), key, i - 1);
    }
}

/// The chosen value of dropdown `key` of `tool`.
pub fn select_val(form: &FormState, tool: &'static str, key: &'static str) -> (r: Option<String>)
    requires
        form.wf(),
    ensures
        opt_string_view(r) == select_of(form.selects(), tool@, key@),
{
    let t = match find_tool(tool) {
        Some(t) => t,
        None => return None,
    };
    let mut i: usize = 0;
    while i < t.options.len()
        invariant
            i <= t.options@.len(),
            forall|j: int| 0 <= j < i ==> (#[trigger] t.options@[j]).key@ != key@,
        ensures
            i <= t.options@.len(),
            forall|j: int| 0 <= j < i ==> (#[trigger] t.options@[j]).key@ != key@,
            i < t.options@.len() ==> t.options@[i as int].key@ == key@,
        decreases t.options@.len() - i,
    {
        if str_eq(t.options[i].key, key) {
            break;
        }
        i = i + 1;
    }
    proof {
        lemma_first_option_at(t.options@, key@, i as int);
    }
    if i == t.options.len() {
        return None;
    }
    match &t.options[i].kind {
        OptionKind::Select { choices } => {
            let v = form.select_value(tool, key, choices);
            Some(String::from_str(v))
        },
        _ => None,
    }
}

/// The files in the drop zone of `tool` (none when it has no zone).
pub open spec fn files_of(zones: Seq<(Seq<char>, (Seq<Seq<char>>, bool))>, tool: Seq<char>) -> Seq<Seq<char>> {
    match keyed(zones, tool) {
        Some(z) => z.0,
        None => seq![],
    }
}

/// The first file in the drop zone of `tool`.
pub fn first_file(drop: &DropStates, tool: &str) -> (r: Option<String>)
    requires
        drop.wf(),
    ensures
        opt_string_view(r) == if files_of(drop.zones(), tool@).len() > 0 {
            Some(files_of(drop.zones(), tool@)[0])
        } else {
            None::<Seq<char>>
        },
{
    match drop.get(tool) {
        Some(ds) => {
            if ds.files.len() > 0 {
                let f = ds.files[0].clone();
                assert(string_views(ds.files@)[0] == ds.files@[0]@);
                Some(f)
            } else {
                None
            }
        },
        None => None,
    }
}

/// All files in the drop zone of `tool`, in order.
pub fn all_files(drop: &DropStates, tool: &str) -> (r: Vec<String>)
    requires
        drop.wf(),
    ensures
        string_views(r@) == files_of(drop.zones(), tool@),
{
    let mut out: Vec<String> = Vec::new();
    match drop.get(tool) {
        Some(ds) => {
            let mut i: usize = 0;
            while i < ds.files.len()
                invariant
                    i <= ds.files@.len(),
                    string_views(out@) == string_views(ds.files@).take(i as int),
                decreases ds.files@.len() - i,
            {
                let ghost before = out@;
                let f = ds.files[i].clone();
                assert(f == ds.files@[i as int]);
                out.push(f);
                assert(out@ == before.push(f));
                assert(string_views(out@) =~= string_views(before).push(f@));
                assert(string_views(ds.files@).take(i + 1) =~= string_views(ds.files@).take(i as int).push(ds.files@[i as int]@));
                i = i + 1;
            }
            assert(string_views(ds.files@).take(i as int) =~= string_views(ds.files@));
        },
        None => {
            assert(string_views(out@) =~= Seq::<Seq<char>>::empty());
        },
    }
    out
}


/// A quality preset as a value of specs.
pub enum QualityView {
    Best,
    High,
    Medium,
    Low,
    Custom(Seq<char>),
}

/// The preset a (lowercased) quality name selects.
pub open spec fn quality_of(l: Seq<char>) -> QualityView {
    if l == "best"@ || l == "audio-only"@ {
        QualityView::Best
    } else if l == "1080p"@ {
        QualityView::High
    } else if l == "720p"@ {
        QualityView::Medium
    } else if l == "480p"@ {
        QualityView::Low
    } else {
        QualityView::Custom(l)
    }
}

/// A quality preset as a value of specs.
pub open spec fn quality_view(q: Quality) -> QualityView {
    match q {
        Quality::Best => QualityView::Best,
        Quality::High => QualityView::High,
        Quality::Medium => QualityView::Medium,
        Quality::Low => QualityView::Low,
        Quality::Custom(c) => QualityView::Custom(c@),
    }
}

/// What a tool is run with, once its form is read.
#[derive(Debug)]
pub enum ToolRequest {
    Download { url: String, quality: Quality, output_format: OutputFormat, audio_only: bool },
    Trim { path: String, start: Option<String>, end: Option<String> },
    Convert { path: String, format: OutputFormat, image: bool },
    /// `scale` is the percentage as typed; the caller reads it as a number.
    Resize { path: String, width: Option<u32>, height: Option<u32>, scale: Option<String> },
    CompressImage { path: String, quality: u8 },
    PdfSplit { path: String, ranges: Vec<(u32, u32)> },
    PdfMerge { files: Vec<String> },
    PdfCompress { path: String, quality: String },
    QrGen { text: String },
    QrDecode { path: String },
    Zip { files: Vec<String> },
    Unzip { path: String },
}

/// The tool ids differ from each other.
pub proof fn lemma_tool_names_differ()
    ensures
        "trim"@ != "download"@,
        "convert"@ != "download"@,
        "convert"@ != "trim"@,
        "resize"@ != "download"@,
        "resize"@ != "trim"@,
        "resize"@ != "convert"@,
        "compress-image"@ != "download"@,
        "compress-image"@ != "trim"@,
        "compress-image"@ != "convert"@,
        "compress-image"@ != "resize"@,
        "pdf-split"@ != "download"@,
        "pdf-split"@ != "trim"@,
        "pdf-split"@ != "convert"@,
        "pdf-split"@ != "resize"@,
        "pdf-split"@ != "compress-image"@,
        "pdf-merge"@ != "download"@,
        "pdf-merge"@ != "trim"@,
        "pdf-merge"@ != "convert"@,
        "pdf-merge"@ != "resize"@,
        "pdf-merge"@ != "compress-image"@,
        "pdf-merge"@ != "pdf-split"@,
        "pdf-compress"@ != "download"@,
        "pdf-compress"@ != "trim"@,
        "pdf-compress"@ != "convert"@,
        "pdf-compress"@ != "resize"@,
        "pdf-compress"@ != "compress-image"@,
        "pdf-compress"@ != "pdf-split"@,
        "pdf-compress"@ != "pdf-merge"@,
        "qr-gen"@ != "download"@,
        "qr-gen"@ != "trim"@,
        "qr-gen"@ != "convert"@,
        "qr-gen"@ != "resize"@,
        "qr-gen"@ != "compress-image"@,
        "qr-gen"@ != "pdf-split"@,
        "qr-gen"@ != "pdf-merge"@,
        "qr-gen"@ != "pdf-compress"@,
        "qr-decode"@ != "download"@,
        "qr-decode"@ != "trim"@,
        "qr-decode"@ != "convert"@,
        "qr-decode"@ != "resize"@,
        "qr-decode"@ != "compress-image"@,
        "qr-decode"@ != "pdf-split"@,
        "qr-decode"@ != "pdf-merge"@,
        "qr-decode"@ != "pdf-compress"@,
        "qr-decode"@ != "qr-gen"@,
        "zip"@ != "download"@,
        "zip"@ != "trim"@,
        "zip"@ != "convert"@,
        "zip"@ != "resize"@,
        "zip"@ != "compress-image"@,
        "zip"@ != "pdf-split"@,
        "zip"@ != "pdf-merge"@,
        "zip"@ != "pdf-compress"@,
        "zip"@ != "qr-gen"@,
        "zip"@ != "qr-decode"@,
        "unzip"@ != "download"@,
        "unzip"@ != "trim"@,
        "unzip"@ != "convert"@,
        "unzip"@ != "resize"@,
        "unzip"@ != "compress-image"@,
        "unzip"@ != "pdf-split"@,
        "unzip"@ != "pdf-merge"@,
        "unzip"@ != "pdf-compress"@,
        "unzip"@ != "qr-gen"@,
        "unzip"@ != "qr-decode"@,
        "unzip"@ != "zip"@,
{
    lemma_tool_ids_distinct();
    let ids = tool_ids();
    assert(ids[1] != ids[0]);
    assert(ids[2] != ids[0]);
    assert(ids[2] != ids[1]);
    assert(ids[3] != ids[0]);
    assert(ids[3] != ids[1]);
    assert(ids[3] != ids[2]);
    assert(ids[4] != ids[0]);
    assert(ids[4] != ids[1]);
    assert(ids[4] != ids[2]);
    assert(ids[4] != ids[3]);
    assert(ids[5] != ids[0]);
    assert(ids[5] != ids[1]);
    assert(ids[5] != ids[2]);
    assert(ids[5] != ids[3]);
    assert(ids[5] != ids[4]);
    assert(ids[6] != ids[0]);
    assert(ids[6] != ids[1]);
    assert(ids[6] != ids[2]);
    assert(ids[6] != ids[3]);
    assert(ids[6] != ids[4]);
    assert(ids[6] != ids[5]);
    assert(ids[7] != ids[0]);
    assert(ids[7] != ids[1]);
    assert(ids[7] != ids[2]);
    assert(ids[7] != ids[3]);
    assert(ids[7] != ids[4]);
    assert(ids[7] != ids[5]);
    assert(ids[7] != ids[6]);
    assert(ids[8] != ids[0]);
    assert(ids[8] != ids[1]);
    assert(ids[8] != ids[2]);
    assert(ids[8] != ids[3]);
    assert(ids[8] != ids[4]);
    assert(ids[8] != ids[5]);
    assert(ids[8] != ids[6]);
    assert(ids[8] != ids[7]);
    assert(ids[9] != ids[0]);
    assert(ids[9] != ids[1]);
    assert(ids[9] != ids[2]);
    assert(ids[9] != ids[3]);
    assert(ids[9] != ids[4]);
    assert(ids[9] != ids[5]);
    assert(ids[9] != ids[6]);
    assert(ids[9] != ids[7]);
    assert(ids[9] != ids[8]);
    assert(ids[10] != ids[0]);
    assert(ids[10] != ids[1]);
    assert(ids[10] != ids[2]);
    assert(ids[10] != ids[3]);
    assert(ids[10] != ids[4]);
    assert(ids[10] != ids[5]);
    assert(ids[10] != ids[6]);
    assert(ids[10] != ids[7]);
    assert(ids[10] != ids[8]);
    assert(ids[10] != ids[9]);
    assert(ids[11] != ids[0]);
    assert(ids[11] != ids[1]);
    assert(ids[11] != ids[2]);
    assert(ids[11] != ids[3]);
    assert(ids[11] != ids[4]);
    assert(ids[11] != ids[5]);
    assert(ids[11] != ids[6]);
    assert(ids[11] != ids[7]);
    assert(ids[11] != ids[8]);
    assert(ids[11] != ids[9]);
    assert(ids[11] != ids[10]);
}

/// A tool request as a value of specs.
pub enum RequestView {
    Download { url: Seq<char>, quality: QualityView, output_format: OutputFormat, audio_only: bool },
    Trim { path: Seq<char>, start: Option<Seq<char>>, end: Option<Seq<char>> },
    Convert { path: Seq<char>, format: OutputFormat, image: bool },
    Resize { path: Seq<char>, width: Option<u32>, height: Option<u32>, scale: Option<Seq<char>> },
    CompressImage { path: Seq<char>, quality: u8 },
    PdfSplit { path: Seq<char>, ranges: Seq<(u32, u32)> },
    PdfMerge { files: Seq<Seq<char>> },
    PdfCompress { path: Seq<char>, quality: Seq<char> },
    QrGen { text: Seq<char> },
    QrDecode { path: Seq<char> },
    Zip { files: Seq<Seq<char>> },
    Unzip { path: Seq<char> },
}

/// A tool request as a value of specs.
pub open spec fn request_view(r: ToolRequest) -> RequestView {
    match r {
        ToolRequest::Download { url, quality, output_format, audio_only } =>
            RequestView::Download { url: url@, quality: quality_view(quality), output_format, audio_only },
        ToolRequest::Trim { path, start, end } =>
            RequestView::Trim { path: path@, start: opt_string_view(start), end: opt_string_view(end) },
        ToolRequest::Convert { path, format, image } => RequestView::Convert { path: path@, format, image },
        ToolRequest::Resize { path, width, height, scale } =>
            RequestView::Resize { path: path@, width, height, scale: opt_string_view(scale) },
        ToolRequest::CompressImage { path, quality } => RequestView::CompressImage { path: path@, quality },
        ToolRequest::PdfSplit { path, ranges } => RequestView::PdfSplit { path: path@, ranges: ranges@ },
        ToolRequest::PdfMerge { files } => RequestView::PdfMerge { files: string_views(files@) },
        ToolRequest::PdfCompress { path, quality } => RequestView::PdfCompress { path: path@, quality: quality@ },
        ToolRequest::QrGen { text } => RequestView::QrGen { text: text@ },
        ToolRequest::QrDecode { path } => RequestView::QrDecode { path: path@ },
        ToolRequest::Zip { files } => RequestView::Zip { files: string_views(files@) },
        ToolRequest::Unzip { path } => RequestView::Unzip { path: path@ },
    }
}

/// The form and drop zones a tool is run from, as values of specs.
pub struct FormView {
    pub entries: Seq<(Seq<char>, Seq<char>, Seq<char>)>,
    pub selects: Seq<(Seq<char>, Seq<char>, usize)>,
    pub zones: Seq<(Seq<char>, (Seq<Seq<char>>, bool))>,
}

/// The first file of `tool`'s drop zone, if any.
pub open spec fn first_of(f: FormView, tool: Seq<char>) -> Option<Seq<char>> {
    if files_of(f.zones, tool).len() > 0 { Some(files_of(f.zones, tool)[0]) } else { None }
}

/// `s` parsed as a whole number, as `str::parse` does, when `s` is some.
pub open spec fn number_of(s: Option<Seq<char>>) -> Option<u32> {
    match s {
        Some(t) => parse_u32_spec(t),
        None => None,
    }
}

/// The image quality typed in `s`, 80 when none or no `u8` is typed.
pub open spec fn image_quality_of(s: Option<Seq<char>>) -> u8 {
    match number_of(s) {
        Some(v) => if v <= 255 { v as u8 } else { 80 },
        None => 80,
    }
}

/// Whether `path` names an image by its extension (case-insensitive).
pub open spec fn is_image_path(path: Seq<char>) -> bool {
    extension_of(path) matches Some(e) && image_ext(lowercase(e))
}

/// What tool `tool` is run with from form `f`, or the message telling the
/// user what is missing.
pub open spec fn request_spec(tool: Seq<char>, f: FormView) -> Result<RequestView, Seq<char>> {
    if tool == "download"@ {
        match text_of(f.entries, tool, "__input__"@) {
            None => Err("Enter a URL to download"@),
            Some(url) => {
                let q = match select_of(f.selects, tool, "quality"@) { Some(v) => v, None => "best"@ };
                let fm = match select_of(f.selects, tool, "format"@) { Some(v) => v, None => "mp4"@ };
                Ok(RequestView::Download { url, quality: quality_of(lowercase(q)),
                    output_format: output_format_of(lowercase(fm)), audio_only: q == "audio-only"@ })
            },
        }
    } else if tool == "trim"@ {
        match first_of(f, tool) {
            None => Err("Select a file to trim"@),
            Some(path) => {
                let (start, end) = (text_of(f.entries, tool, "start"@), text_of(f.entries, tool, "end"@));
                if start is None && end is None {
                    Err("Specify at least a start or end time"@)
                } else {
                    Ok(RequestView::Trim { path, start, end })
                }
            },
        }
    } else if tool == "convert"@ {
        match first_of(f, tool) {
            None => Err("Select a file to convert"@),
            Some(path) => {
                let fm = match select_of(f.selects, tool, "format"@) { Some(v) => v, None => "mp4"@ };
                Ok(RequestView::Convert { path, format: output_format_of(lowercase(fm)), image: is_image_path(path) })
            },
        }
    } else if tool == "resize"@ {
        match first_of(f, tool) {
            None => Err("Select an image to resize"@),
            Some(path) => {
                let width = number_of(text_of(f.entries, tool, "width"@));
                let height = number_of(text_of(f.entries, tool, "height"@));
                let scale = text_of(f.entries, tool, "scale"@);
                if width is None && height is None && scale is None {
                    Err("Specify width, height, or scale"@)
                } else {
                    Ok(RequestView::Resize { path, width, height, scale })
                }
            },
        }
    } else if tool == "compress-image"@ {
        match first_of(f, tool) {
            None => Err("Select an image to compress"@),
            Some(path) => Ok(RequestView::CompressImage { path,
                quality: image_quality_of(text_of(f.entries, tool, "quality"@)) }),
        }
    } else if tool == "pdf-split"@ {
        match first_of(f, tool) {
            None => Err("Select a PDF to split"@),
            Some(path) => match text_of(f.entries, tool, "ranges"@) {
                None => Err("Specify page ranges"@),
                Some(rs) => match page_ranges_spec(rs) {
                    Ok(ranges) => Ok(RequestView::PdfSplit { path, ranges }),
                    Err(e) => Err(e),
                },
            },
        }
    } else if tool == "pdf-merge"@ {
        if files_of(f.zones, tool).len() < 2 {
            Err("Select at least 2 PDFs to merge"@)
        } else {
            Ok(RequestView::PdfMerge { files: files_of(f.zones, tool) })
        }
    } else if tool == "pdf-compress"@ {
        match first_of(f, tool) {
            None => Err("Select a PDF to compress"@),
            Some(path) => Ok(RequestView::PdfCompress { path,
                quality: match select_of(f.selects, tool, "quality"@) { Some(v) => v, None => "ebook"@ } }),
        }
    } else if tool == "qr-gen"@ {
        match text_of(f.entries, tool, "__input__"@) {
            None => Err("Enter text or URL to encode"@),
            Some(text) => Ok(RequestView::QrGen { text }),
        }
    } else if tool == "qr-decode"@ {
        match first_of(f, tool) {
            None => Err("Select a QR code image"@),
            Some(path) => Ok(RequestView::QrDecode { path }),
        }
    } else if tool == "zip"@ {
        if files_of(f.zones, tool).len() == 0 {
            Err("Select files to zip"@)
        } else {
            Ok(RequestView::Zip { files: files_of(f.zones, tool) })
        }
    } else if tool == "unzip"@ {
        match first_of(f, tool) {
            None => Err("Select a zip file to extract"@),
            Some(path) => Ok(RequestView::Unzip { path }),
        }
    } else {
        Err("Unknown tool: "@ + tool)
    }
}

/// The form and drop zones as values of specs.
pub open spec fn form_view(form: &FormState, drop: &DropStates) -> FormView {
    FormView { entries: form.entries(), selects: form.selects(), zones: drop.zones() }
}

/// The outcome of planning as a value of specs.
pub open spec fn plan_view(r: Result<ToolRequest, String>) -> Result<RequestView, Seq<char>> {
    match r {
        Ok(q) => Ok(request_view(q)),
        Err(e) => Err(e@),
    }
}

fn owned(s: &str) -> (r: String)
    ensures
        r@ == s@,
{
    String::from_str(s)
}

fn number_val(s: Option<String>) -> (r: Option<u32>)
    ensures
        r == number_of(opt_string_view(s)),
{
    match s {
        Some(t) => {
            let cs = chars_of(t.as_str());
            assert(cs@.subrange(0, cs@.len() as int) =~= cs@);
            parse_u32(&cs, 0, cs.len())
        },
        None => None,
    }
}

fn download_request(form: &FormState, drop: &DropStates) -> (r: Result<ToolRequest, String>)
    requires
        form.wf(),
        drop.wf(),
    ensures
        plan_view(r) == request_spec("download"@, form_view(form, drop)),
{
    proof {
        lemma_tool_names_differ();
    }
    let tool = "download";
    let url = match text_val(form, tool, "__input__") {
        Some(u) => u,
        None => return Err(owned("Enter a URL to download")),
    };
    let quality_str = match select_val(form, tool, "quality") {
        Some(v) => v,
        None => owned("best"),
    };
    let format_str = match select_val(form, tool, "format") {
        Some(v) => v,
        None => owned("mp4"),
    };
    let audio_only = str_eq(quality_str.as_str(), "audio-only");
    let quality = parse_quality(quality_str.as_str());
    let output_format = parse_output_format(format_str.as_str());
    Ok(ToolRequest::Download { url, quality, output_format, audio_only })
}

fn trim_request(form: &FormState, drop: &DropStates) -> (r: Result<ToolRequest, String>)
    requires
        form.wf(),
        drop.wf(),
    ensures
        plan_view(r) == request_spec("trim"@, form_view(form, drop)),
{
    proof {
        lemma_tool_names_differ();
    }
    let tool = "trim";
    let path = match first_file(drop, tool) {
        Some(p) => p,
        None => return Err(owned("Select a file to trim")),
    };
    let start = text_val(form, tool, "start");
    let end = text_val(form, tool, "end");
    if start.is_none() && end.is_none() {
        return Err(owned("Specify at least a start or end time"));
    }
    Ok(ToolRequest::Trim { path, start, end })
}

fn convert_request(form: &FormState, drop: &DropStates) -> (r: Result<ToolRequest, String>)
    requires
        form.wf(),
        drop.wf(),
    ensures
        plan_view(r) == request_spec("convert"@, form_view(form, drop)),
{
    proof {
        lemma_tool_names_differ();
    }
    let tool = "convert";
    let path = match first_file(drop, tool) {
        Some(p) => p,
        None => return Err(owned("Select a file to convert")),
    };
    let format_str = match select_val(form, tool, "format") {
        Some(v) => v,
        None => owned("mp4"),
    };
    let format = parse_output_format(format_str.as_str());
    let image = is_image_ext(path.as_str());
    Ok(ToolRequest::Convert { path, format, image })
}

fn resize_request(form: &FormState, drop: &DropStates) -> (r: Result<ToolRequest, String>)
    requires
        form.wf(),
        drop.wf(),
    ensures
        plan_view(r) == request_spec("resize"@, form_view(form, drop)),
{
    proof {
        lemma_tool_names_differ();
    }
    let tool = "resize";
    let path = match first_file(drop, tool) {
        Some(p) => p,
        None => return Err(owned("Select an image to resize")),
    };
    let width = number_val(text_val(form, tool, "width"));
    let height = number_val(text_val(form, tool, "height"));
    let scale = text_val(form, tool, "scale");
    if width.is_none() && height.is_none() && scale.is_none() {
        return Err(owned("Specify width, height, or scale"));
    }
    Ok(ToolRequest::Resize { path, width, height, scale })
}

fn compress_image_request(form: &FormState, drop: &DropStates) -> (r: Result<ToolRequest, String>)
    requires
        form.wf(),
        drop.wf(),
    ensures
        plan_view(r) == request_spec("compress-image"@, form_view(form, drop)),
{
    proof {
        lemma_tool_names_differ();
    }
    let tool = "compress-image";
    let path = match first_file(drop, tool) {
        Some(p) => p,
        None => return Err(owned("Select an image to compress")),
    };
    let quality: u8 = match number_val(text_val(form, tool, "quality")) {
        Some(v) => if v <= 255 { v as u8 } else { 80 },
        None => 80,
    };
    Ok(ToolRequest::CompressImage { path, quality })
}

fn pdf_split_request(form: &FormState, drop: &DropStates) -> (r: Result<ToolRequest, String>)
    requires
        form.wf(),
        drop.wf(),
    ensures
        plan_view(r) == request_spec("pdf-split"@, form_view(form, drop)),
{
    proof {
        lemma_tool_names_differ();
    }
    let tool = "pdf-split";
    let path = match first_file(drop, tool) {
        Some(p) => p,
        None => return Err(owned("Select a PDF to split")),
    };
    let ranges_str = match text_val(form, tool, "ranges") {
        Some(s) => s,
        None => return Err(owned("Specify page ranges")),
    };
    match parse_page_ranges(ranges_str.as_str()) {
        Ok(ranges) => Ok(ToolRequest::PdfSplit { path, ranges }),
        Err(e) => Err(e),
    }
}

fn files_request(form: &FormState, drop: &DropStates, tool: &'static str) -> (r: Result<ToolRequest, String>)
    requires
        form.wf(),
        drop.wf(),
        tool@ == "pdf-merge"@ || tool@ == "zip"@,
    ensures
        plan_view(r) == request_spec(tool@, form_view(form, drop)),
{
    proof {
        lemma_tool_names_differ();
    }
    let files = all_files(drop, tool);
    if str_eq(tool, "zip") {
        if files.len() == 0 {
            return Err(owned("Select files to zip"));
        }
        Ok(ToolRequest::Zip { files })
    } else {
        if files.len() < 2 {
            return Err(owned("Select at least 2 PDFs to merge"));
        }
        Ok(ToolRequest::PdfMerge { files })
    }
}

fn pdf_compress_request(form: &FormState, drop: &DropStates) -> (r: Result<ToolRequest, String>)
    requires
        form.wf(),
        drop.wf(),
    ensures
        plan_view(r) == request_spec("pdf-compress"@, form_view(form, drop)),
{
    proof {
        lemma_tool_names_differ();
    }
    let tool = "pdf-compress";
    let path = match first_file(drop, tool) {
        Some(p) => p,
        None => return Err(owned("Select a PDF to compress")),
    };
    let quality = match select_val(form, tool, "quality") {
        Some(v) => v,
        None => owned("ebook"),
    };
    Ok(ToolRequest::PdfCompress { path, quality })
}

fn qr_gen_request(form: &FormState, drop: &DropStates) -> (r: Result<ToolRequest, String>)
    requires
        form.wf(),
        drop.wf(),
    ensures
        plan_view(r) == request_spec("qr-gen"@, form_view(form, drop)),
{
    proof {
        lemma_tool_names_differ();
    }
    match text_val(form, "qr-gen", "__input__") {
        Some(text) => Ok(ToolRequest::QrGen { text }),
        None => Err(owned("Enter text or URL to encode")),
    }
}

fn single_file_request(form: &FormState, drop: &DropStates, tool: &'static str) -> (r: Result<ToolRequest, String>)
    requires
        form.wf(),
        drop.wf(),
        tool@ == "qr-decode"@ || tool@ == "unzip"@,
    ensures
        plan_view(r) == request_spec(tool@, form_view(form, drop)),
{
    proof {
        lemma_tool_names_differ();
    }
    let path = first_file(drop, tool);
    if str_eq(tool, "unzip") {
        match path {
            Some(path) => Ok(ToolRequest::Unzip { path }),
            None => Err(owned("Select a zip file to extract")),
        }
    } else {
        match path {
            Some(path) => Ok(ToolRequest::QrDecode { path }),
            None => Err(owned("Select a QR code image")),
        }
    }
}

/// Read what tool `tool_id` is to be run with from the form and the drop
/// zones, or say what is missing.
pub fn dispatch(tool_id: &'static str, form: &FormState, drop: &DropStates) -> (r: Result<ToolRequest, String>)
    requires
        form.wf(),
        drop.wf(),
    ensures
        plan_view(r) == request_spec(tool_id@, form_view(form, drop)),
{
    proof {
        lemma_tool_names_differ();
    }
    if str_eq(tool_id, "download") {
        download_request(form, drop)
    } else if str_eq(tool_id, "trim") {
        trim_request(form, drop)
    } else if str_eq(tool_id, "convert") {
        convert_request(form, drop)
    } else if str_eq(tool_id, "resize") {
        resize_request(form, drop)
    } else if str_eq(tool_id, "compress-image") {
        compress_image_request(form, drop)
    } else if str_eq(tool_id, "pdf-split") {
        pdf_split_request(form, drop)
    } else if str_eq(tool_id, "pdf-merge") {
        files_request(form, drop, tool_id)
    } else if str_eq(tool_id, "pdf-compress") {
        pdf_compress_request(form, drop)
    } else if str_eq(tool_id, "qr-gen") {
        qr_gen_request(form, drop)
    } else if str_eq(tool_id, "qr-decode") {
        single_file_request(form, drop, tool_id)
    } else if str_eq(tool_id, "zip") {
        files_request(form, drop, tool_id)
    } else if str_eq(tool_id, "unzip") {
        single_file_request(form, drop, tool_id)
    } else {
        let mut m = owned("Unknown tool: ");
        m.append(tool_id);
        Err(m)
    }
}

/// A download is audio-only exactly when the quality chosen in the form is
/// `audio-only`; with no quality chosen (the default `best`) it downloads the
/// full video.
pub proof fn law_download_audio_only(f: FormView)
    ensures
        request_spec("download"@, f) matches Ok(RequestView::Download { audio_only, .. }) ==> {
            &&& audio_only <==> select_of(f.selects, "download"@, "quality"@) == Some("audio-only"@)
            &&& select_of(f.selects, "download"@, "quality"@) is None ==> !audio_only
        },
{
    reveal_strlit("audio-only");
    reveal_strlit("best");
    reveal_strlit("download");
    assert("best"@ != "audio-only"@) by {
        assert("best"@.len() != "audio-only"@.len());
    }
}

} // verus!
