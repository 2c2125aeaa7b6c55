//! Decisions of the companion web server.

use crate::elf_resolv::same_text;
use crate::float::text_views;
use crate::text::{chars_of, decimal, decimal_string, push_chars};
use vstd::prelude::*;
use vstd::string::*;

verus! {

/// The port to try next where one could not be bound: the one above it, if it was in
/// use and there is one.
pub fn next_port(port: u16, in_use: bool) -> (r: Option<u16>)
    ensures
        r == (if in_use && port < u16::MAX {
            Some((port + 1) as u16)
        } else {
            None
        }),
{
    if in_use && port < u16::MAX {
        Some(port + 1)
    } else {
        None
    }
}

/// What is served for a path.
#[derive(Debug, Clone, Copy, PartialEq, Eq, Structural)]
pub enum AssetChoice {
    /// The bundled file of this index.
    Asset(usize),
    /// Not found.
    NotFound,
    /// The web interface is not bundled.
    NotBundled,
}

/// `s` without the slashes in front.
pub open spec fn without_slashes(s: Seq<char>) -> Seq<char>
    decreases s.len(),
{
    if s.len() > 0 && s[0] == '/' {
        without_slashes(s.skip(1))
    } else {
        s
    }
}

/// True if `s` starts with `head`.
pub open spec fn starts_with(s: Seq<char>, head: Seq<char>) -> bool {
    head.len() <= s.len() && s.take(head.len() as int) == head
}

/// True if the part behind the last slash holds a dot.
pub open spec fn is_file_name(s: Seq<char>) -> bool
    decreases s.len(),
{
    if s.len() == 0 || s.last() == '/' {
        false
    } else {
        s.last() == '.' || is_file_name(s.drop_last())
    }
}

/// Index of the first bundled file with this path, at or after `k`.
pub open spec fn asset_index(known: Seq<Seq<char>>, k: int, path: Seq<char>) -> Option<int>
    decreases known.len() - k,
{
    if k < 0 || k >= known.len() {
        None
    } else if known[k] == path {
        Some(k)
    } else {
        asset_index(known, k + 1, path)
    }
}

/// The bundled file with this path, or `other`.
pub open spec fn asset_or(
    known: Seq<Seq<char>>,
    path: Seq<char>,
    other: AssetChoice,
) -> AssetChoice {
    match asset_index(known, 0, path) {
        Some(i) => AssetChoice::Asset(i as usize),
        None => other,
    }
}

/// What is served for the path of a request: a bundled file; the start page for the
/// root and for paths without a file name; nothing under `api/` and `ws/`.
pub open spec fn asset_choice(uri_path: Seq<char>, known: Seq<Seq<char>>) -> AssetChoice {
    let path = without_slashes(uri_path);
    if starts_with(path, "api/"@) || starts_with(path, "ws/"@) {
        AssetChoice::NotFound
    } else if path.len() == 0 {
        asset_or(known, "index.html"@, AssetChoice::NotBundled)
    } else if asset_index(known, 0, path) is Some {
        asset_or(known, path, AssetChoice::NotFound)
    } else if is_file_name(path) {
        AssetChoice::NotFound
    } else {
        asset_or(known, "index.html"@, AssetChoice::NotFound)
    }
}

fn find_asset(known: &[String], path: &str) -> (r: Option<usize>)
    ensures
        r matches Some(i) ==> asset_index(text_views(known@), 0, path@) == Some(i as int),
        r is None ==> asset_index(text_views(known@), 0, path@) is None,
{
    let ghost views = text_views(known@);
    let mut k: usize = 0;
    while k < known.len()
        invariant
            k <= known.len(),
            views == text_views(known@),
            asset_index(views, 0, path@) == asset_index(views, k as int, path@),
        decreases known.len() - k,
    {
        assert(views[k as int] == known[k as int]@);
        if same_text(known[k].as_str(), path) {
            return Some(k);
        }
        k += 1;
    }
    None
}

fn starts(chars: &[char], head: &str) -> (r: bool)
    ensures
        r == starts_with(chars@, head@),
{
    let mark = chars_of(head);
    if mark.len() > chars.len() {
        return false;
    }
    let mut i: usize = 0;
    while i < mark.len()
        invariant
            i <= mark.len() <= chars.len(),
            mark@ == head@,
            forall|k: int| 0 <= k < i ==> chars[k] == mark[k],
        decreases mark.len() - i,
    {
        if chars[i] != mark[i] {
            assert(chars@.take(mark@.len() as int)[i as int] != mark@[i as int]);
            return false;
        }
        i += 1;
    }
    assert(chars@.take(mark@.len() as int) =~= mark@);
    true
}

fn file_name(chars: &[char]) -> (r: bool)
    ensures
        r == is_file_name(chars@),
{
    let mut n: usize = chars.len();
    assert(chars@.take(n as int) =~= chars@);
    while n > 0
        invariant
            n <= chars.len(),
            is_file_name(chars@) == is_file_name(chars@.take(n as int)),
        decreases n,
    {
        let c = chars[n - 1];
        assert(chars@.take(n as int).last() == c);
        assert(chars@.take(n as int).drop_last() =~= chars@.take(n - 1));
        if c == '/' {
            return false;
        }
        if c == '.' {
            return true;
        }
        n -= 1;
    }
    false
}

/// What is served for the path of a request, given the paths of the bundled files.
pub fn choose_asset(uri_path: &str, known: &[String]) -> (r: AssetChoice)
    ensures
        r == asset_choice(uri_path@, text_views(known@)),
{
    let list = chars_of(uri_path);
    let mut from: usize = 0;
    assert(list@.skip(0) =~= list@);
    while from < list.len() && list[from] == '/'
        invariant
            from <= list.len(),
            list@ == uri_path@,
            without_slashes(uri_path@) == without_slashes(list@.skip(from as int)),
        decreases list.len() - from,
    {
        assert(list@.skip(from as int).skip(1) =~= list@.skip(from + 1));
        from += 1;
    }
    let chars = vstd::slice::slice_subrange(list.as_slice(), from, list.len());
    assert(chars@ =~= list@.skip(from as int));
    let mut path = String::new();
    push_chars(&mut path, chars, 0, chars.len());
    assert(path@ =~= chars@);
    if starts(chars, "api/") || starts(chars, "ws/") {
        return AssetChoice::NotFound;
    }
    if chars.len() == 0 {
        return match find_asset(known, "index.html") {
            Some(i) => AssetChoice::Asset(i),
            None => AssetChoice::NotBundled,
        };
    }
    match find_asset(known, path.as_str()) {
        Some(i) => AssetChoice::Asset(i),
        None => {
            if file_name(chars) {
                return AssetChoice::NotFound;
            }
            match find_asset(known, "index.html") {
                Some(i) => AssetChoice::Asset(i),
                None => AssetChoice::NotFound,
            }
        },
    }
}

/// Last position before `n` that holds `c`, or -1.
pub open spec fn last_before(s: Seq<char>, n: int, c: char) -> int
    decreases n,
{
    if n <= 0 {
        -1
    } else if s[n - 1] == c {
        n - 1
    } else {
        last_before(s, n - 1, c)
    }
}

/// The extension of a file: what stands behind the last dot of its name, unless that
/// dot is the first character of the name. The name stands behind the last slash.
pub open spec fn extension(path: Seq<char>) -> Seq<char> {
    let n = path.len() as int;
    let slash = last_before(path, n, '/');
    let dot = last_before(path, n, '.');
    if dot > slash + 1 {
        path.skip(dot + 1)
    } else {
        Seq::empty()
    }
}

/// The media type of files with this extension.
pub open spec fn mime_of(ext: Seq<char>) -> Seq<char> {
    if ext == "css"@ {
        "text/css; charset=utf-8"@
    } else if ext == "html"@ {
        "text/html; charset=utf-8"@
    } else if ext == "js"@ || ext == "mjs"@ {
        "text/javascript; charset=utf-8"@
    } else if ext == "json"@ || ext == "map"@ {
        "application/json; charset=utf-8"@
    } else if ext == "svg"@ {
        "image/svg+xml"@
    } else if ext == "wasm"@ {
        "application/wasm"@
    } else if ext == "ico"@ {
        "image/x-icon"@
    } else if ext == "png"@ {
        "image/png"@
    } else if ext == "jpg"@ || ext == "jpeg"@ {
        "image/jpeg"@
    } else if ext == "webp"@ {
        "image/webp"@
    } else if ext == "woff"@ {
        "font/woff"@
    } else if ext == "woff2"@ {
        "font/woff2"@
    } else {
        "application/octet-stream"@
    }
}

fn find_last(s: &[char], c: char) -> (r: Option<usize>)
    ensures
        match r {
            Some(i) => i < s.len() && last_before(s@, s@.len() as int, c) == i,
            None => last_before(s@, s@.len() as int, c) == -1,
        },
{
    let mut n: usize = s.len();
    while n > 0
        invariant
            n <= s.len(),
            last_before(s@, s@.len() as int, c) == last_before(s@, n as int, c),
        decreases n,
    {
        if s[n - 1] == c {
            return Some(n - 1);
        }
        n -= 1;
    }
    None
}

/// The media type under which the bundled file at `path` is served.
pub fn mime_for_path(path: &str) -> (r: &'static str)
    ensures
        r@ == mime_of(extension(path@)),
{
    let chars = chars_of(path);
    let start: usize = match find_last(chars.as_slice(), '/') {
        Some(i) => i + 1,
        None => 0,
    };
    let mut ext = String::new();
    if let Some(dot) = find_last(chars.as_slice(), '.') {
        if dot > start {
            push_chars(&mut ext, chars.as_slice(), dot + 1, chars.len());
        }
    }
    assert(ext@ =~= extension(path@));
    let e = ext.as_str();
    if same_text(e, "css") {
        "text/css; charset=utf-8"
    } else if same_text(e, "html") {
        "text/html; charset=utf-8"
    } else if same_text(e, "js") || same_text(e, "mjs") {
        "text/javascript; charset=utf-8"
    } else if same_text(e, "json") || same_text(e, "map") {
        "application/json; charset=utf-8"
    } else if same_text(e, "svg") {
        "image/svg+xml"
    } else if same_text(e, "wasm") {
        "application/wasm"
    } else if same_text(e, "ico") {
        "image/x-icon"
    } else if same_text(e, "png") {
        "image/png"
    } else if same_text(e, "jpg") || same_text(e, "jpeg") {
        "image/jpeg"
    } else if same_text(e, "webp") {
        "image/webp"
    } else if same_text(e, "woff") {
        "font/woff"
    } else if same_text(e, "woff2") {
        "font/woff2"
    } else {
        "application/octet-stream"
    }
}

/// The message for a client that was too slow.
pub fn skipped_message(skipped: u64) -> (r: String)
    ensures
        r@ == "--- websocket skipped "@ + decimal(skipped as nat) + " old log message(s) ---"@,
{
    let mut s = "--- websocket skipped ".to_string();
    s.append(decimal_string(skipped).as_str());
    s.append(" old log message(s) ---");
    s
}

/// A failed request: HTTP status and message.
#[derive(Debug, Clone, PartialEq, Eq)]
pub struct ApiError {
    /// HTTP status code.
    pub status: u16,
    /// What went wrong.
    pub error: String,
}

/// A failed request.
#[verifier::ext_equal]
pub struct ApiErrorV {
    pub status: u16,
    pub error: Seq<char>,
}

/// What a request gives.
pub open spec fn api_says(r: Result<(), ApiError>) -> Result<(), ApiErrorV> {
    match r {
        Ok(()) => Ok(()),
        Err(e) => Err(ApiErrorV { status: e.status, error: e.error@ }),
    }
}

fn api_error(status: u16, error: &str) -> (r: ApiError)
    ensures
        r.status == status,
        r.error@ == error@,
{
    ApiError { status, error: error.to_string() }
}

/// Checks a request for serial control lines: it must name at least one.
pub fn check_lines(dtr: Option<bool>, rts: Option<bool>) -> (r: Result<(), ApiError>)
    ensures
        api_says(r) == (if dtr is None && rts is None {
            Err(ApiErrorV { status: 400, error: "request must include dtr or rts"@ })
        } else {
            Ok(())
        }),
{
    if dtr.is_none() && rts.is_none() {
        return Err(api_error(400, "request must include dtr or rts"));
    }
    Ok(())
}

/// How a control command ended.
#[derive(Debug, Clone, PartialEq, Eq)]
pub enum ControlReply {
    /// It could not be sent.
    NotRunning,
    /// It was carried out.
    Done,
    /// It failed.
    Failed(String),
    /// The serial task gave no answer.
    Dropped,
    /// The serial task took too long.
    TimedOut,
}

/// What the client is told.
pub open spec fn reply_result(reply: ControlReply) -> Result<(), ApiErrorV> {
    match reply {
        ControlReply::Done => Ok(()),
        ControlReply::NotRunning => Err(
            ApiErrorV { status: 503, error: "serial task is not running"@ },
        ),
        ControlReply::Failed(e) => Err(ApiErrorV { status: 500, error: e@ }),
        ControlReply::Dropped => Err(
            ApiErrorV { status: 503, error: "serial task dropped control response"@ },
        ),
        ControlReply::TimedOut => Err(
            ApiErrorV { status: 504, error: "timed out waiting for serial control"@ },
        ),
    }
}

/// Maps the end of a control command to what the client is told.
pub fn control_result(reply: ControlReply) -> (r: Result<(), ApiError>)
    ensures
        api_says(r) == reply_result(reply),
{
    match reply {
        ControlReply::Done => Ok(()),
        ControlReply::NotRunning => Err(api_error(503, "serial task is not running")),
        ControlReply::Failed(e) => Err(ApiError { status: 500, error: e }),
        ControlReply::Dropped => Err(api_error(503, "serial task dropped control response")),
        ControlReply::TimedOut => Err(api_error(504, "timed out waiting for serial control")),
    }
}

// ---- Laws ----

proof fn lemma_asset_index(known: Seq<Seq<char>>, k: int, path: Seq<char>)
    requires
        0 <= k <= known.len(),
    ensures
        match asset_index(known, k, path) {
            Some(i) => k <= i < known.len() && known[i] == path && forall|j: int|
                k <= j < i ==> #[trigger] known[j] != path,
            None => forall|j: int| k <= j < known.len() ==> #[trigger] known[j] != path,
        },
    decreases known.len() - k,
{
    if k < known.len() {
        lemma_asset_index(known, k + 1, path);
    }
}

/// True if `i` is the first of the files with this path.
pub open spec fn is_first(known: Seq<Seq<char>>, i: int, path: Seq<char>) -> bool {
    &&& 0 <= i < known.len()
    &&& known[i] == path
    &&& forall|j: int| 0 <= j < i ==> #[trigger] known[j] != path
}

/// True if no file has this path.
pub open spec fn is_unknown(known: Seq<Seq<char>>, path: Seq<char>) -> bool {
    forall|j: int| 0 <= j < known.len() ==> #[trigger] known[j] != path
}

/// A bundled file is served under its path, with or without a slash in front, unless the
/// path is one of the server's own.
pub proof fn bundled_files_are_served(known: Seq<Seq<char>>, path: Seq<char>, i: int)
    requires
        is_first(known, i, path),
        i <= usize::MAX,
        path.len() > 0,
        path[0] != '/',
        !starts_with(path, "api/"@),
        !starts_with(path, "ws/"@),
    ensures
        asset_choice(path, known) == AssetChoice::Asset(i as usize),
        asset_choice(seq!['/'] + path, known) == AssetChoice::Asset(i as usize),
{
    lemma_asset_index(known, 0, path);
    assert((seq!['/'] + path).skip(1) =~= path);
}

/// The start page is served for the root, and for a path that names no bundled file and
/// does not look like a file name; a file name that is not bundled is not found, nor is
/// anything under the server's own paths.
pub proof fn other_paths_get_the_start_page(known: Seq<Seq<char>>, path: Seq<char>, i: int)
    requires
        is_first(known, i, "index.html"@),
        i <= usize::MAX,
        path.len() == 0 || path[0] != '/',
    ensures
        asset_choice(seq!['/'], known) == AssetChoice::Asset(i as usize),
        starts_with(path, "api/"@) || starts_with(path, "ws/"@) ==> asset_choice(path, known)
            == AssetChoice::NotFound,
        path.len() > 0 && is_unknown(known, path) && !starts_with(path, "api/"@) && !starts_with(
            path,
            "ws/"@,
        ) ==> asset_choice(path, known) == (if is_file_name(path) {
            AssetChoice::NotFound
        } else {
            AssetChoice::Asset(i as usize)
        }),
{
    lemma_asset_index(known, 0, "index.html"@);
    lemma_asset_index(known, 0, path);
    let none = Seq::<char>::empty();
    assert(seq!['/'].skip(1) =~= none);
    assert(without_slashes(none) == none);
    reveal_strlit("api/");
    reveal_strlit("ws/");
}

/// A path looks like a file name if a dot stands behind its last slash.
pub proof fn file_names_hold_a_dot(dir: Seq<char>, name: Seq<char>)
    requires
        dir.len() == 0 || dir.last() == '/',
        !name.contains('/'),
    ensures
        is_file_name(dir + name) <==> name.contains('.'),
    decreases name.len(),
{
    let s = dir + name;
    if name.len() == 0 {
        assert(s =~= dir);
    } else {
        let front = name.drop_last();
        assert(name.contains(name.last()));
        assert forall|k: int| 0 <= k < front.len() implies front[k] != '/' by {
            assert(name.contains(name[k]));
        }
        file_names_hold_a_dot(dir, front);
        assert(s.drop_last() =~= dir + front);
        assert(s.last() == name.last());
        if front.contains('.') {
            let k = choose|k: int| 0 <= k < front.len() && front[k] == '.';
            assert(name[k] == '.');
        }
        if name.contains('.') && name.last() != '.' {
            let k = choose|k: int| 0 <= k < name.len() && name[k] == '.';
            assert(front[k] == '.');
        }
    }
}

proof fn lemma_last_before(s: Seq<char>, n: int, c: char, i: int)
    requires
        -1 <= i < n <= s.len(),
        i >= 0 ==> s[i] == c,
        forall|k: int| i < k < n ==> #[trigger] s[k] != c,
    ensures
        last_before(s, n, c) == i,
    decreases n,
{
    if n - 1 > i {
        assert(s[n - 1] != c);
        lemma_last_before(s, n - 1, c, i);
    }
}

/// The media type goes by what stands behind the last dot of a file's name.
pub proof fn extension_stands_behind_the_last_dot(
    dir: Seq<char>,
    stem: Seq<char>,
    ext: Seq<char>,
)
    requires
        dir.len() == 0 || dir.last() == '/',
        stem.len() > 0,
        !stem.contains('/'),
        !ext.contains('/'),
        !ext.contains('.'),
    ensures
        extension(dir + stem + seq!['.'] + ext) == ext,
{
    let path = dir + stem + seq!['.'] + ext;
    let n = path.len() as int;
    let dot = (dir + stem).len() as int;
    assert forall|k: int| dot < k < n implies #[trigger] path[k] != '.' by {
        assert(ext.contains(ext[k - dot - 1]));
    }
    lemma_last_before(path, n, '.', dot);
    let slash = dir.len() - 1;
    assert forall|k: int| slash < k < n implies #[trigger] path[k] != '/' by {
        if k < dot {
            assert(stem.contains(stem[k - dir.len()]));
        } else if k > dot {
            assert(ext.contains(ext[k - dot - 1]));
        }
    }
    assert(dir.len() > 0 ==> path[slash] == dir.last());
    lemma_last_before(path, n, '/', slash);
    assert(path.skip(dot + 1) =~= ext);
}

/// A control command is answered with success exactly if it was carried out, and an
/// answer that tells of a failure has the status of an error of the server.
pub proof fn only_success_is_reported_as_success(reply: ControlReply)
    ensures
        reply_result(reply) is Ok <==> reply is Done,
        reply_result(reply) matches Err(e) ==> 500 <= e.status < 600,
        reply matches ControlReply::Failed(why) ==> reply_result(reply) == Err::<(), ApiErrorV>(
            ApiErrorV { status: 500, error: why@ },
        ),
        reply is TimedOut ==> reply_result(reply)->Err_0.status == 504,
        reply is NotRunning || reply is Dropped ==> reply_result(reply)->Err_0.status == 503,
{
}

/// The media types of the files of a web page, by their extension and wherever they lie.
pub proof fn files_of_a_page_have_their_media_types(dir: Seq<char>, stem: Seq<char>)
    requires
        dir.len() == 0 || dir.last() == '/',
        stem.len() > 0,
        !stem.contains('/'),
    ensures
        mime_of(extension(dir + stem + seq!['.'] + "html"@)) == "text/html; charset=utf-8"@,
        mime_of(extension(dir + stem + seq!['.'] + "css"@)) == "text/css; charset=utf-8"@,
        mime_of(extension(dir + stem + seq!['.'] + "js"@)) == "text/javascript; charset=utf-8"@,
        mime_of(extension(dir + stem + seq!['.'] + "json"@)) == "application/json; charset=utf-8"@,
        mime_of(extension(dir + stem + seq!['.'] + "svg"@)) == "image/svg+xml"@,
        mime_of(extension(dir + stem + seq!['.'] + "wasm"@)) == "application/wasm"@,
        mime_of(extension(dir + stem + seq!['.'] + "ico"@)) == "image/x-icon"@,
        mime_of(extension(dir + stem + seq!['.'] + "png"@)) == "image/png"@,
        mime_of(extension(dir + stem + seq!['.'] + "woff2"@)) == "font/woff2"@,
{
    reveal_strlit("css");
    reveal_strlit("html");
    reveal_strlit("js");
    reveal_strlit("mjs");
    reveal_strlit("json");
    reveal_strlit("map");
    reveal_strlit("svg");
    reveal_strlit("wasm");
    reveal_strlit("ico");
    reveal_strlit("png");
    reveal_strlit("jpg");
    reveal_strlit("jpeg");
    reveal_strlit("webp");
    reveal_strlit("woff");
    reveal_strlit("woff2");
    lemma_told_apart("html"@, "css"@, 0);
    extension_stands_behind_the_last_dot(dir, stem, "html"@);
    extension_stands_behind_the_last_dot(dir, stem, "css"@);
    extension_stands_behind_the_last_dot(dir, stem, "js"@);
    extension_stands_behind_the_last_dot(dir, stem, "json"@);
    extension_stands_behind_the_last_dot(dir, stem, "svg"@);
    extension_stands_behind_the_last_dot(dir, stem, "wasm"@);
    extension_stands_behind_the_last_dot(dir, stem, "ico"@);
    extension_stands_behind_the_last_dot(dir, stem, "png"@);
    extension_stands_behind_the_last_dot(dir, stem, "woff2"@);
    lemma_told_apart("json"@, "html"@, 0);
    lemma_told_apart("svg"@, "css"@, 0);
    lemma_told_apart("svg"@, "mjs"@, 0);
    lemma_told_apart("svg"@, "map"@, 0);
    lemma_told_apart("wasm"@, "html"@, 0);
    lemma_told_apart("wasm"@, "json"@, 0);
    lemma_told_apart("ico"@, "css"@, 0);
    lemma_told_apart("ico"@, "mjs"@, 0);
    lemma_told_apart("ico"@, "map"@, 0);
    lemma_told_apart("ico"@, "svg"@, 0);
    lemma_told_apart("png"@, "css"@, 0);
    lemma_told_apart("png"@, "mjs"@, 0);
    lemma_told_apart("png"@, "map"@, 0);
    lemma_told_apart("png"@, "svg"@, 0);
    lemma_told_apart("png"@, "ico"@, 0);
}

proof fn lemma_told_apart(a: Seq<char>, b: Seq<char>, k: int)
    requires
        0 <= k < a.len(),
        k < b.len(),
        a[k] != b[k],
    ensures
        a != b,
{
}

/// Slashes in front of a path do not matter.
pub proof fn slashes_in_front_do_not_matter(path: Seq<char>, known: Seq<Seq<char>>)
    ensures
        asset_choice(seq!['/'] + path, known) == asset_choice(path, known),
{
    assert((seq!['/'] + path).skip(1) =~= path);
}

/// Without a bundled start page the root says that the web interface is not bundled, and
/// other paths that name no bundled file are not found.
pub proof fn start_page_may_be_missing(known: Seq<Seq<char>>, path: Seq<char>)
    requires
        is_unknown(known, "index.html"@),
        path.len() > 0,
        path[0] != '/',
        is_unknown(known, path),
    ensures
        asset_choice(Seq::empty(), known) == AssetChoice::NotBundled,
        asset_choice(path, known) == AssetChoice::NotFound,
{
    lemma_asset_index(known, 0, "index.html"@);
    lemma_asset_index(known, 0, path);
    let none = Seq::<char>::empty();
    reveal_strlit("api/");
    reveal_strlit("ws/");
    assert(without_slashes(none) == none);
}

/// A file has no extension if its name holds no dot, or only the one that it starts with.
pub proof fn hidden_files_have_no_extension(dir: Seq<char>, name: Seq<char>)
    requires
        dir.len() == 0 || dir.last() == '/',
        !name.contains('/'),
        forall|k: int| 0 < k < name.len() ==> #[trigger] name[k] != '.',
    ensures
        extension(dir + name).len() == 0,
        mime_of(extension(dir + name)) == "application/octet-stream"@,
{
    let path = dir + name;
    let n = path.len() as int;
    let slash = dir.len() - 1;
    assert forall|k: int| slash < k < n implies #[trigger] path[k] != '/' by {
        assert(name.contains(name[k - dir.len()]));
    }
    assert(dir.len() > 0 ==> path[slash] == dir.last());
    lemma_last_at(path, n, '/', slash);
    lemma_last_in(path, n, '.');
    let dot = last_before(path, n, '.');
    if dot > slash + 1 {
        assert(path[dot] == name[dot - dir.len()]);
    }
    lemma_extension_lengths();
}

proof fn lemma_last_at(s: Seq<char>, n: int, c: char, i: int)
    requires
        -1 <= i,
        i < n || n == 0 && i == -1,
        n <= s.len(),
        i >= 0 ==> s[i] == c,
        forall|k: int| i < k < n ==> #[trigger] s[k] != c,
    ensures
        last_before(s, n, c) == i,
{
    if n > 0 {
        lemma_last_before(s, n, c, i);
    }
}

proof fn lemma_last_in(s: Seq<char>, n: int, c: char)
    requires
        0 <= n <= s.len(),
    ensures
        -1 <= last_before(s, n, c) < n || n == 0 && last_before(s, n, c) == -1,
        last_before(s, n, c) >= 0 ==> s[last_before(s, n, c)] == c,
    decreases n,
{
    if n > 0 && s[n - 1] != c {
        lemma_last_in(s, n - 1, c);
    }
}

proof fn lemma_extension_lengths()
    ensures
        "css"@.len() == 3 && "html"@.len() == 4 && "js"@.len() == 2 && "mjs"@.len() == 3,
        "json"@.len() == 4 && "map"@.len() == 3 && "svg"@.len() == 3 && "wasm"@.len() == 4,
        "ico"@.len() == 3 && "png"@.len() == 3 && "jpg"@.len() == 3 && "jpeg"@.len() == 4,
        "webp"@.len() == 4 && "woff"@.len() == 4 && "woff2"@.len() == 5,
{
    reveal_strlit("css");
    reveal_strlit("html");
    reveal_strlit("js");
    reveal_strlit("mjs");
    reveal_strlit("json");
    reveal_strlit("map");
    reveal_strlit("svg");
    reveal_strlit("wasm");
    reveal_strlit("ico");
    reveal_strlit("png");
    reveal_strlit("jpg");
    reveal_strlit("jpeg");
    reveal_strlit("webp");
    reveal_strlit("woff");
    reveal_strlit("woff2");
}

/// Modules are scripts, source maps are JSON, and the images and fonts of a page have
/// their types. A file with any other extension is only bytes.
pub proof fn other_files_have_their_media_types(ext: Seq<char>)
    ensures
        mime_of("mjs"@) == "text/javascript; charset=utf-8"@,
        mime_of("map"@) == "application/json; charset=utf-8"@,
        mime_of("jpg"@) == "image/jpeg"@,
        mime_of("jpeg"@) == "image/jpeg"@,
        mime_of("webp"@) == "image/webp"@,
        mime_of("woff"@) == "font/woff"@,
        ext != "css"@ && ext != "html"@ && ext != "js"@ && ext != "mjs"@ && ext != "json"@ && ext
            != "map"@ && ext != "svg"@ && ext != "wasm"@ && ext != "ico"@ && ext != "png"@ && ext
            != "jpg"@ && ext != "jpeg"@ && ext != "webp"@ && ext != "woff"@ && ext != "woff2"@
            ==> mime_of(ext) == "application/octet-stream"@,
{
    lemma_extension_lengths();
    reveal_strlit("css");
    reveal_strlit("html");
    reveal_strlit("mjs");
    reveal_strlit("json");
    reveal_strlit("map");
    reveal_strlit("svg");
    reveal_strlit("wasm");
    reveal_strlit("ico");
    reveal_strlit("png");
    reveal_strlit("jpg");
    reveal_strlit("jpeg");
    reveal_strlit("webp");
    reveal_strlit("woff");
    lemma_told_apart("mjs"@, "css"@, 0);
    lemma_told_apart("map"@, "css"@, 0);
    lemma_told_apart("map"@, "mjs"@, 1);
    lemma_told_apart("jpg"@, "css"@, 0);
    lemma_told_apart("jpg"@, "mjs"@, 0);
    lemma_told_apart("jpg"@, "map"@, 0);
    lemma_told_apart("jpg"@, "svg"@, 0);
    lemma_told_apart("jpg"@, "ico"@, 0);
    lemma_told_apart("jpg"@, "png"@, 0);
    lemma_told_apart("jpeg"@, "html"@, 0);
    lemma_told_apart("jpeg"@, "json"@, 1);
    lemma_told_apart("jpeg"@, "wasm"@, 0);
    lemma_told_apart("webp"@, "html"@, 0);
    lemma_told_apart("webp"@, "json"@, 0);
    lemma_told_apart("webp"@, "wasm"@, 1);
    lemma_told_apart("webp"@, "jpeg"@, 0);
    lemma_told_apart("woff"@, "html"@, 0);
    lemma_told_apart("woff"@, "json"@, 0);
    lemma_told_apart("woff"@, "wasm"@, 1);
    lemma_told_apart("woff"@, "jpeg"@, 0);
    lemma_told_apart("woff"@, "webp"@, 1);
}

} // verus!
