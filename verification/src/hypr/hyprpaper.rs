//! The daemon's configuration file: what it holds, how its text is read, and
//! how it is written back.

use vstd::prelude::*;
use vstd::slice::slice_subrange;
use vstd::string::StringExecFns;
use crate::paths::{join_path, joined_path, option_view};
use crate::text::{
    chars_of, find, is_trimmed, lemma_find, lemma_find_is,
    lemma_lines_hold_no_line_feed, lemma_lines_push, lemma_trim, lemma_trim_leading,
    lemma_trim_of_trimmed, lemma_trim_trailing, lines, position, same_chars, slice_views,
    split_lines, string_of, string_views, trim, trimmed,
};

verus! {

/// One binding of a wallpaper to a monitor. An empty monitor name stands for
/// every monitor that has no binding of its own.
pub struct WallpaperEntry {
    pub monitor: String,
    pub path: String,
}

/// What a `WallpaperEntry` stands for.
pub struct Binding {
    pub monitor: Seq<char>,
    pub path: Seq<char>,
}

impl View for WallpaperEntry {
    type V = Binding;

    open spec fn view(&self) -> Binding {
        Binding { monitor: self.monitor@, path: self.path@ }
    }
}

impl Clone for WallpaperEntry {
    fn clone(&self) -> (r: Self)
        ensures
            r@ == self@,
    {
        WallpaperEntry { monitor: self.monitor.clone(), path: self.path.clone() }
    }
}

impl WallpaperEntry {
    /// The binding of the wallpaper at `path` to `monitor`.
    pub fn new(monitor: String, path: String) -> (r: Self)
        ensures
            r@ == (Binding { monitor: monitor@, path: path@ }),
    {
        Self { monitor: monitor, path: path }
    }
}

/// The bindings that a sequence of entries stands for.
pub open spec fn bindings(v: Seq<WallpaperEntry>) -> Seq<Binding> {
    v.map_values(|e: WallpaperEntry| e@)
}

/// The daemon's configuration: the images it loads ahead of use, the
/// wallpaper of each monitor, and the file that holds both.
pub struct HyprpaperConfig {
    pub preloads: Vec<String>,
    pub wallpapers: Vec<WallpaperEntry>,
    pub(crate) config_path: String,
}

/// What a `HyprpaperConfig` stands for.
pub struct ConfigView {
    pub preloads: Seq<Seq<char>>,
    pub wallpapers: Seq<Binding>,
    pub config_path: Seq<char>,
}

impl View for HyprpaperConfig {
    type V = ConfigView;

    open(crate) spec fn view(&self) -> ConfigView {
        ConfigView {
            preloads: string_views(self.preloads@),
            wallpapers: bindings(self.wallpapers@),
            config_path: self.config_path@,
        }
    }
}

/// A file and the text that is to replace what it holds.
pub struct FileWrite {
    pub path: String,
    pub contents: String,
}

/// What a `FileWrite` stands for.
pub struct FileWriteView {
    pub path: Seq<char>,
    pub contents: Seq<char>,
}

impl View for FileWrite {
    type V = FileWriteView;

    open spec fn view(&self) -> FileWriteView {
        FileWriteView { path: self.path@, contents: self.contents@ }
    }
}

/// What one line of the file says.
pub enum Directive {
    Preload(String),
    Wallpaper(WallpaperEntry),
    Ignored,
}

/// The key and the value of a line: the trimmed texts before and after its
/// first `=`. Blank lines, comments (`#`) and lines without `=` have none.
pub open spec fn key_value(raw: Seq<char>) -> Option<(Seq<char>, Seq<char>)> {
    let line = trim(raw);
    let i: nat = find(line, '=');
    if line.len() == 0 || line[0] == '#' || i >= line.len() {
        None
    } else {
        Some((trim(line.take(i as int)), trim(line.skip(i as int + 1))))
    }
}

/// The image that a line tells the daemon to preload, if it is such a line:
/// its key is `preload` and its value is not empty.
pub open spec fn line_preload(raw: Seq<char>) -> Option<Seq<char>> {
    match key_value(raw) {
        Some((key, value)) => if key == "preload"@ && value.len() > 0 {
            Some(value)
        } else {
            None
        },
        None => None,
    }
}

/// The binding that a line states, if it is such a line: its key is
/// `wallpaper` and its value holds a comma; the monitor and the path are the
/// trimmed texts before and after the first one.
pub open spec fn line_wallpaper(raw: Seq<char>) -> Option<Binding> {
    match key_value(raw) {
        Some((key, value)) => {
            let j: nat = find(value, ',');
            if key == "wallpaper"@ && j < value.len() {
                Some(
                    Binding {
                        monitor: trim(value.take(j as int)),
                        path: trim(value.skip(j as int + 1)),
                    },
                )
            } else {
                None
            }
        },
        None => None,
    }
}

/// The preloads that the lines state, in their order.
pub open spec fn parsed_preloads(ls: Seq<Seq<char>>) -> Seq<Seq<char>> {
    ls.filter_map(|l: Seq<char>| line_preload(l))
}

/// The bindings that the lines state, in their order.
pub open spec fn parsed_wallpapers(ls: Seq<Seq<char>>) -> Seq<Binding> {
    ls.filter_map(|l: Seq<char>| line_wallpaper(l))
}

/// The configuration that the text of the file at `path` states.
pub open spec fn parse(path: Seq<char>, text: Seq<char>) -> ConfigView {
    ConfigView {
        preloads: parsed_preloads(lines(text)),
        wallpapers: parsed_wallpapers(lines(text)),
        config_path: path,
    }
}

/// The line, with its line feed, that states one preload.
pub open spec fn preload_line(p: Seq<char>) -> Seq<char> {
    "preload = "@ + p + "\n"@
}

/// The line, with its line feed, that states one binding.
pub open spec fn wallpaper_line(b: Binding) -> Seq<char> {
    "wallpaper = "@ + b.monitor + ","@ + b.path + "\n"@
}

/// The lines of all preloads, one after the other.
pub open spec fn preload_text(ps: Seq<Seq<char>>) -> Seq<char>
    decreases ps.len(),
{
    if ps.len() == 0 {
        Seq::empty()
    } else {
        preload_text(ps.drop_last()) + preload_line(ps.last())
    }
}

/// The lines of all bindings, one after the other.
pub open spec fn wallpaper_text(ws: Seq<Binding>) -> Seq<char>
    decreases ws.len(),
{
    if ws.len() == 0 {
        Seq::empty()
    } else {
        wallpaper_text(ws.drop_last()) + wallpaper_line(ws.last())
    }
}

/// The text of the file: every preload, then every binding.
pub open spec fn serialize(c: ConfigView) -> Seq<char> {
    preload_text(c.preloads) + wallpaper_text(c.wallpapers)
}

/// The configuration path below the user's configuration directory, if there
/// is one, and else below the home directory.
pub open spec fn default_config_path(
    xdg_config_home: Option<Seq<char>>,
    home: Option<Seq<char>>,
) -> Seq<char> {
    match xdg_config_home {
        Some(dir) => joined_path(dir, "hypr/hyprpaper.conf"@),
        None => joined_path(home.unwrap(), ".config/hypr/hyprpaper.conf"@),
    }
}

/// The key and the value of a line, if it has them.
pub fn split_key_value<'a>(raw: &'a [char]) -> (r: Option<(&'a [char], &'a [char])>)
    ensures
        key_value(raw@) == match r {
            Some((key, value)) => Some((key@, value@)),
            None => None,
        },
{
    let line = trimmed(raw);
    if line.len() == 0 || line[0] == '#' {
        return None;
    }
    let i = position(line, '=');
    if i >= line.len() {
        return None;
    }
    let key = trimmed(slice_subrange(line, 0, i));
    let value = trimmed(slice_subrange(line, i + 1, line.len()));
    Some((key, value))
}

/// What the line `raw` says.
pub fn parse_line(raw: &[char]) -> (r: Directive)
    ensures
        line_preload(raw@) == match r {
            Directive::Preload(p) => Some(p@),
            _ => None,
        },
        line_wallpaper(raw@) == match r {
            Directive::Wallpaper(e) => Some(e@),
            _ => None,
        },
{
    proof {
        reveal_strlit("preload");
        reveal_strlit("wallpaper");
        assert("preload"@.len() != "wallpaper"@.len());
    }
    match split_key_value(raw) {
        Some((key, value)) => {
            let preload = chars_of("preload");
            let wallpaper = chars_of("wallpaper");
            if same_chars(key, preload.as_slice()) {
                if value.len() > 0 {
                    Directive::Preload(string_of(value))
                } else {
                    Directive::Ignored
                }
            } else if same_chars(key, wallpaper.as_slice()) {
                let j = position(value, ',');
                if j < value.len() {
                    let monitor = trimmed(slice_subrange(value, 0, j));
                    let path = trimmed(slice_subrange(value, j + 1, value.len()));
                    Directive::Wallpaper(
                        WallpaperEntry { monitor: string_of(monitor), path: string_of(path) },
                    )
                } else {
                    Directive::Ignored
                }
            } else {
                Directive::Ignored
            }
        },
        None => Directive::Ignored,
    }
}

impl HyprpaperConfig {
    /// Reads the configuration from `contents`, the text of the file at
    /// `path`. Lines that state nothing are passed over.
    pub fn new(path: String, contents: &str) -> (r: Self)
        ensures
            r@ == parse(path@, contents@),
    {
        let chars = chars_of(contents);
        let ls = split_lines(chars.as_slice());
        let mut preloads: Vec<String> = Vec::new();
        let mut wallpapers: Vec<WallpaperEntry> = Vec::new();
        let ghost all = slice_views(ls@);
        let mut i: usize = 0;
        while i < ls.len()
            invariant
                i <= ls@.len(),
                all == slice_views(ls@),
                string_views(preloads@) == parsed_preloads(all.take(i as int)),
                bindings(wallpapers@) == parsed_wallpapers(all.take(i as int)),
            decreases ls@.len() - i,
        {
            let ghost before_preloads = string_views(preloads@);
            let ghost before_wallpapers = bindings(wallpapers@);
            match parse_line(ls[i]) {
                Directive::Preload(p) => {
                    preloads.push(p);
                    assert(string_views(preloads@) =~= before_preloads.push(p@));
                },
                Directive::Wallpaper(e) => {
                    wallpapers.push(e);
                    assert(bindings(wallpapers@) =~= before_wallpapers.push(e@));
                },
                Directive::Ignored => {},
            }
            proof {
                assert(all[i as int] == ls@[i as int]@);
                all.lemma_filter_map_take_succ(|l: Seq<char>| line_preload(l), i as int);
                all.lemma_filter_map_take_succ(|l: Seq<char>| line_wallpaper(l), i as int);
            }
            i += 1;
        }
        assert(all.take(i as int) =~= all);
        HyprpaperConfig { preloads, wallpapers, config_path: path }
    }

    /// Where the configuration file is found by default.
    pub fn get_default_config_path(xdg_config_home: Option<String>, home: Option<String>) -> (r:
        String)
        requires
            xdg_config_home is Some || home is Some,
        ensures
            r@ == default_config_path(option_view(xdg_config_home), option_view(home)),
    {
        match xdg_config_home {
            Some(dir) => join_path(dir.as_str(), "hypr/hyprpaper.conf"),
            None => join_path(home.unwrap().as_str(), ".config/hypr/hyprpaper.conf"),
        }
    }

    /// The file that holds this configuration.
    pub fn config_path(&self) -> (r: &String)
        ensures
            r@ == self@.config_path,
    {
        &self.config_path
    }

    /// The text of the configuration file.
    pub fn to_string(&self) -> (r: String)
        ensures
            r@ == serialize(self@),
    {
        let mut r = String::new();
        let mut i: usize = 0;
        while i < self.preloads.len()
            invariant
                i <= self.preloads@.len(),
                r@ == preload_text(self@.preloads.take(i as int)),
            decreases self.preloads@.len() - i,
        {
            r.append("preload = ");
            r.append(self.preloads[i].as_str());
            r.append("\n");
            proof {
                let ps = self@.preloads.take(i + 1);
                assert(ps.drop_last() =~= self@.preloads.take(i as int));
                assert(r@ =~= preload_text(ps.drop_last()) + preload_line(ps.last()));
            }
            i += 1;
        }
        assert(self@.preloads.take(i as int) =~= self@.preloads);
        let ghost head = r@;
        let mut j: usize = 0;
        assert(r@ =~= head + wallpaper_text(self@.wallpapers.take(0)));
        while j < self.wallpapers.len()
            invariant
                j <= self.wallpapers@.len(),
                r@ == head + wallpaper_text(self@.wallpapers.take(j as int)),
            decreases self.wallpapers@.len() - j,
        {
            let entry = &self.wallpapers[j];
            r.append("wallpaper = ");
            r.append(entry.monitor.as_str());
            r.append(",");
            r.append(entry.path.as_str());
            r.append("\n");
            proof {
                let ws = self@.wallpapers.take(j + 1);
                assert(ws.drop_last() =~= self@.wallpapers.take(j as int));
                assert(r@ =~= head + (wallpaper_text(ws.drop_last()) + wallpaper_line(ws.last())));
            }
            j += 1;
        }
        assert(self@.wallpapers.take(j as int) =~= self@.wallpapers);
        r
    }

    /// What saving the configuration writes, and where.
    pub fn save_config(&self) -> (r: FileWrite)
        ensures
            r@.path == self@.config_path,
            r@.contents == serialize(self@),
    {
        FileWrite { path: self.config_path.clone(), contents: self.to_string() }
    }
}

/// A text that a line gives back as it was written: it is trimmed and holds
/// no line feed.
pub open spec fn is_writable_field(s: Seq<char>) -> bool {
    is_trimmed(s) && !s.contains('\n')
}

/// A binding that its line gives back: both texts are writable fields, and
/// the monitor holds no comma.
pub open spec fn is_writable_binding(b: Binding) -> bool {
    is_writable_field(b.monitor) && !b.monitor.contains(',') && is_writable_field(b.path)
}

/// A configuration that its text gives back: every preload is a writable
/// field and not empty, and every binding is writable.
pub open spec fn is_writable(c: ConfigView) -> bool {
    &&& forall|i: int|
        0 <= i < c.preloads.len() ==> is_writable_field(#[trigger] c.preloads[i])
            && c.preloads[i].len() > 0
    &&& forall|i: int| 0 <= i < c.wallpapers.len() ==> is_writable_binding(#[trigger] c.wallpapers[i])
}

/// The line of a writable preload states that preload and no binding.
proof fn lemma_preload_line(p: Seq<char>)
    requires
        is_writable_field(p),
        p.len() > 0,
    ensures
        line_preload("preload = "@ + p) == Some(p),
        line_wallpaper("preload = "@ + p) is None,
        !("preload = "@ + p).contains('\n'),
{
    reveal_strlit("preload = ");
    reveal_strlit("preload");
    reveal_strlit("wallpaper");
    let word = "preload = "@;
    let key = "preload"@;
    let line = word + p;
    assert(line.first() == word[0]);
    assert(line.last() == p.last());
    lemma_trim_of_trimmed(line);
    assert forall|i: int| 0 <= i < 8 implies line[i] != '=' by {
        assert(line[i] == word[i]);
    }
    assert(line[8] == word[8]);
    lemma_find_is(line, '=', 8);
    assert(line.take(8) =~= key + seq![' ']);
    lemma_trim_trailing(key, ' ');
    assert(line.skip(9) =~= seq![' '] + p);
    lemma_trim_leading(' ', p);
    lemma_trim_of_trimmed(p);
    assert(key_value(line) == Some((key, p)));
    assert(key.len() != "wallpaper"@.len());
    assert forall|i: int| 0 <= i < line.len() implies line[i] != '\n' by {
        if i < 10 {
            assert(line[i] == word[i]);
        } else {
            assert(p.contains(p[i - 10]));
        }
    }
}

/// The line of a writable binding states that binding and no preload.
proof fn lemma_wallpaper_line(b: Binding)
    requires
        is_writable_binding(b),
    ensures
        line_wallpaper("wallpaper = "@ + b.monitor + ","@ + b.path) == Some(b),
        line_preload("wallpaper = "@ + b.monitor + ","@ + b.path) is None,
        !("wallpaper = "@ + b.monitor + ","@ + b.path).contains('\n'),
{
    reveal_strlit("wallpaper = ");
    reveal_strlit("preload");
    reveal_strlit("wallpaper");
    reveal_strlit(",");
    let word = "wallpaper = "@;
    let key = "wallpaper"@;
    let value = b.monitor + seq![','] + b.path;
    let line = word + b.monitor + ","@ + b.path;
    assert(","@ =~= seq![',']);
    assert(line =~= word + value);
    assert(value.first() == if b.monitor.len() > 0 {
        b.monitor.first()
    } else {
        ','
    });
    assert(value.last() == if b.path.len() > 0 {
        b.path.last()
    } else {
        ','
    });
    assert(line.first() == word[0]);
    assert(line.last() == value.last());
    lemma_trim_of_trimmed(line);
    assert forall|i: int| 0 <= i < 10 implies line[i] != '=' by {
        assert(line[i] == word[i]);
    }
    assert(line[10] == word[10]);
    lemma_find_is(line, '=', 10);
    assert(line.take(10) =~= key + seq![' ']);
    lemma_trim_trailing(key, ' ');
    assert(line.skip(11) =~= seq![' '] + value);
    lemma_trim_leading(' ', value);
    lemma_trim_of_trimmed(value);
    assert(key_value(line) == Some((key, value)));
    assert(key.len() != "preload"@.len());
    let j = b.monitor.len() as int;
    assert forall|i: int| 0 <= i < j implies value[i] != ',' by {
        assert(b.monitor.contains(b.monitor[i]));
    }
    assert(value[j] == ',');
    lemma_find_is(value, ',', j);
    assert(value.take(j) =~= b.monitor);
    assert(value.skip(j + 1) =~= b.path);
    lemma_trim_of_trimmed(b.monitor);
    lemma_trim_of_trimmed(b.path);
    assert forall|i: int| 0 <= i < line.len() implies line[i] != '\n' by {
        if i < 12 {
            assert(line[i] == word[i]);
        } else if i < 12 + j {
            assert(b.monitor.contains(b.monitor[i - 12]));
        } else if i > 12 + j {
            assert(b.path.contains(b.path[i - 13 - j]));
        }
    }
}

/// The text of writable preloads, followed by that of writable bindings,
/// states those preloads and those bindings.
proof fn lemma_text_states(ps: Seq<Seq<char>>, ws: Seq<Binding>)
    requires
        forall|i: int| 0 <= i < ps.len() ==> is_writable_field(#[trigger] ps[i]) && ps[i].len() > 0,
        forall|i: int| 0 <= i < ws.len() ==> is_writable_binding(#[trigger] ws[i]),
    ensures
        parsed_preloads(lines(preload_text(ps) + wallpaper_text(ws))) == ps,
        parsed_wallpapers(lines(preload_text(ps) + wallpaper_text(ws))) == ws,
        (preload_text(ps) + wallpaper_text(ws)).len() == 0 || (preload_text(ps) + wallpaper_text(
            ws,
        )).last() == '\n',
    decreases ws.len(), ps.len(),
{
    reveal_strlit("\n");
    assert("\n"@ =~= seq!['\n']);
    let text = preload_text(ps) + wallpaper_text(ws);
    if ws.len() > 0 {
        let b = ws.last();
        let line = "wallpaper = "@ + b.monitor + ","@ + b.path;
        let before = preload_text(ps) + wallpaper_text(ws.drop_last());
        lemma_text_states(ps, ws.drop_last());
        lemma_wallpaper_line(b);
        assert(text =~= before + line + seq!['\n']);
        lemma_lines_push(before, line);
        let ls = lines(before);
        assert(ls.push(line).drop_last() =~= ls);
        assert(parsed_preloads(ls.push(line)) =~= parsed_preloads(ls));
        assert(parsed_wallpapers(ls.push(line)) =~= parsed_wallpapers(ls).push(b));
        assert(ws =~= ws.drop_last().push(b));
    } else if ps.len() > 0 {
        let p = ps.last();
        let line = "preload = "@ + p;
        let before = preload_text(ps.drop_last()) + wallpaper_text(ws);
        lemma_text_states(ps.drop_last(), ws);
        lemma_preload_line(p);
        assert(before =~= preload_text(ps.drop_last()));
        assert(text =~= before + line + seq!['\n']);
        lemma_lines_push(before, line);
        let ls = lines(before);
        assert(ls.push(line).drop_last() =~= ls);
        assert(parsed_preloads(ls.push(line)) =~= parsed_preloads(ls).push(p));
        assert(parsed_wallpapers(ls.push(line)) =~= parsed_wallpapers(ls));
        assert(ps =~= ps.drop_last().push(p));
    } else {
        assert(text =~= Seq::<char>::empty());
        assert(lines(text) =~= Seq::<Seq<char>>::empty());
    }
}

/// Reading the text of a writable configuration gives that configuration.
pub proof fn lemma_parse_serialize(c: ConfigView)
    requires
        is_writable(c),
    ensures
        parse(c.config_path, serialize(c)) == c,
{
    lemma_text_states(c.preloads, c.wallpapers);
}

/// Whatever is read is writable: the configurations that their text gives
/// back are those that `is_writable` admits, and no others.
pub proof fn lemma_parsed_is_writable(path: Seq<char>, text: Seq<char>)
    ensures
        is_writable(parse(path, text)),
{
    let ls = lines(text);
    let c = parse(path, text);
    lemma_lines_hold_no_line_feed(text);
    assert forall|i: int| 0 <= i < c.preloads.len() implies is_writable_field(
        #[trigger] c.preloads[i],
    ) && c.preloads[i].len() > 0 by {
        let p = c.preloads[i];
        assert(ls.filter_map(|l: Seq<char>| line_preload(l)).contains(p));
        ls.lemma_filter_map_contains(|l: Seq<char>| line_preload(l), p);
        let raw = choose|raw: Seq<char>| #[trigger] ls.contains(raw) && line_preload(raw) == Some(p);
        lemma_key_value(raw);
    }
    assert forall|i: int| 0 <= i < c.wallpapers.len() implies is_writable_binding(
        #[trigger] c.wallpapers[i],
    ) by {
        let b = c.wallpapers[i];
        assert(ls.filter_map(|l: Seq<char>| line_wallpaper(l)).contains(b));
        ls.lemma_filter_map_contains(|l: Seq<char>| line_wallpaper(l), b);
        let raw = choose|raw: Seq<char>|
            #[trigger] ls.contains(raw) && line_wallpaper(raw) == Some(b);
        lemma_key_value(raw);
        let value = key_value(raw).unwrap().1;
        let j = find(value, ',') as int;
        lemma_find(value, ',');
        let head = value.take(j);
        let tail = value.skip(j + 1);
        lemma_trim(head);
        lemma_trim(tail);
        assert forall|c: char| head.contains(c) implies value.contains(c) && c != ',' by {
            let k = choose|k: int| 0 <= k < head.len() && head[k] == c;
            assert(value[k] == c);
        }
        assert forall|c: char| tail.contains(c) implies value.contains(c) by {
            let k = choose|k: int| 0 <= k < tail.len() && tail[k] == c;
            assert(value[k + j + 1] == c);
        }
        let n = choose|n: int| 0 <= n < ls.len() && ls[n] == raw;
        assert(!ls[n].contains('\n'));
        assert(!value.contains('\n'));
        assert(b.monitor == trim(head));
        assert(b.path == trim(tail));
        if b.monitor.contains('\n') {
            assert(head.contains('\n'));
        }
        if b.monitor.contains(',') {
            assert(head.contains(','));
        }
        if b.path.contains('\n') {
            assert(tail.contains('\n'));
        }
    }
}

/// The value of a line is trimmed, and holds a line feed only if the line
/// does.
proof fn lemma_key_value(raw: Seq<char>)
    requires
        key_value(raw) is Some,
    ensures
        is_trimmed(key_value(raw).unwrap().1),
        raw.contains('\n') || !key_value(raw).unwrap().1.contains('\n'),
{
    let line = trim(raw);
    let i = find(line, '=') as int;
    let tail = line.skip(i + 1);
    lemma_trim(raw);
    lemma_trim(tail);
    if trim(tail).contains('\n') {
        assert(tail.contains('\n'));
        let k = choose|k: int| 0 <= k < tail.len() && tail[k] == '\n';
        assert(line[k + i + 1] == '\n');
        assert(line.contains('\n'));
    }
}

} // verus!
