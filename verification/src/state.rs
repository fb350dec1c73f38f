//! The state that a wallpaper assignment works on: the configuration, the
//! monitors of the compositor, and the monitor that is selected.

use vstd::prelude::*;
use crate::hypr::hyprpaper::{
    bindings, serialize, Binding, ConfigView, FileWrite, HyprpaperConfig, WallpaperEntry,
};
use crate::paths::{option_view, parent_of, parent_path};
use crate::text::string_views;

verus! {

/// The configuration, the monitors, and the selected monitor. An empty
/// selection stands for all monitors.
pub struct AppState {
    pub config: Option<HyprpaperConfig>,
    pub monitors: Vec<String>,
    selected_monitor: String,
}

/// What an `AppState` stands for.
pub struct StateView {
    pub config: Option<ConfigView>,
    pub monitors: Seq<Seq<char>>,
    pub selected_monitor: Seq<char>,
}

impl StateView {
    /// The bindings of the configuration.
    pub open spec fn wallpapers(self) -> Seq<Binding> {
        self.config.unwrap().wallpapers
    }

    /// This state with `ws` as the bindings of its configuration.
    pub open spec fn with_wallpapers(self, ws: Seq<Binding>) -> StateView {
        StateView { config: Some(ConfigView { wallpapers: ws, ..self.config.unwrap() }), ..self }
    }

    /// This state with `ps` as the preloads of its configuration.
    pub open spec fn with_preloads(self, ps: Seq<Seq<char>>) -> StateView {
        StateView { config: Some(ConfigView { preloads: ps, ..self.config.unwrap() }), ..self }
    }
}

impl View for AppState {
    type V = StateView;

    closed spec fn view(&self) -> StateView {
        StateView {
            config: match self.config {
                Some(c) => Some(c@),
                None => None,
            },
            monitors: string_views(self.monitors@),
            selected_monitor: self.selected_monitor@,
        }
    }
}

impl Default for AppState {
    fn default() -> (r: Self)
        ensures
            r@ == (StateView {
                config: None,
                monitors: Seq::empty(),
                selected_monitor: Seq::empty(),
            }),
    {
        let r = AppState { config: None, monitors: Vec::new(), selected_monitor: String::new() };
        assert(string_views(r.monitors@) =~= Seq::empty());
        r
    }
}

/// The bindings of `ws` that are not for `monitor`.
pub open spec fn without_monitor(ws: Seq<Binding>, monitor: Seq<char>) -> Seq<Binding> {
    ws.filter(|b: Binding| b.monitor != monitor)
}

/// Whether `ws` holds a binding for `monitor`.
pub open spec fn has_binding(ws: Seq<Binding>, monitor: Seq<char>) -> bool {
    exists|i: int| 0 <= i < ws.len() && (#[trigger] ws[i]).monitor == monitor
}

/// The paths of `ws`, each once, in the order in which they first appear.
pub open spec fn distinct_paths(ws: Seq<Binding>) -> Seq<Seq<char>>
    decreases ws.len(),
{
    if ws.len() == 0 {
        Seq::empty()
    } else {
        let head = distinct_paths(ws.drop_last());
        if head.contains(ws.last().path) {
            head
        } else {
            head.push(ws.last().path)
        }
    }
}

/// The directory of a path's parent, or the root where it has none.
pub open spec fn directory_or_root(parent: Option<Seq<char>>) -> Seq<char> {
    match parent {
        Some(dir) => dir,
        None => "/"@,
    }
}

/// The directory in which browsing starts: that of the first wallpaper, or
/// the root where there is no wallpaper or its path has no parent.
pub open spec fn first_wallpaper_directory(ws: Seq<Binding>) -> Seq<char> {
    if ws.len() == 0 {
        "/"@
    } else {
        directory_or_root(parent_path(ws[0].path))
    }
}

/// The bindings after `path` was assigned while `selected` was the selected
/// monitor and the compositor had `monitors` monitors: an assignment to all
/// monitors replaces every binding, one to a single monitor replaces that
/// monitor's; if there are then more bindings than monitors, those for all
/// monitors go.
pub open spec fn assigned(
    ws: Seq<Binding>,
    monitors: nat,
    selected: Seq<char>,
    path: Seq<char>,
) -> Seq<Binding> {
    let kept = if selected.len() == 0 {
        Seq::empty()
    } else {
        without_monitor(ws, selected)
    };
    let added = kept.push(Binding { monitor: selected, path: path });
    if added.len() > monitors {
        without_monitor(added, Seq::empty())
    } else {
        added
    }
}

/// The state after `path` was assigned in the state `s`: the bindings are
/// those that `assigned` gives, and the preloads are their distinct paths.
pub open spec fn after_assignment(s: StateView, path: Seq<char>) -> StateView {
    let ws = assigned(s.wallpapers(), s.monitors.len(), s.selected_monitor, path);
    s.with_wallpapers(ws).with_preloads(distinct_paths(ws))
}

/// What the assignment of `path` in the state `s` reports: the monitor that
/// was selected, the path, and whether `s` had more than one binding.
pub open spec fn assignment_of(s: StateView, path: Seq<char>) -> AssignmentView {
    AssignmentView {
        monitor: s.selected_monitor,
        path: path,
        had_multiple: s.wallpapers().len() > 1,
    }
}

/// What an assignment leaves for the daemon's controller to act on.
pub struct Assignment {
    pub monitor: String,
    pub path: String,
    pub had_multiple: bool,
}

/// What an `Assignment` stands for.
pub struct AssignmentView {
    pub monitor: Seq<char>,
    pub path: Seq<char>,
    pub had_multiple: bool,
}

impl View for Assignment {
    type V = AssignmentView;

    open spec fn view(&self) -> AssignmentView {
        AssignmentView {
            monitor: self.monitor@,
            path: self.path@,
            had_multiple: self.had_multiple,
        }
    }
}

/// Whether `v` holds a string with the text of `s`.
fn contains_text(v: &Vec<String>, s: &String) -> (r: bool)
    ensures
        r == string_views(v@).contains(s@),
{
    let mut k: usize = 0;
    while k < v.len()
        invariant
            k <= v@.len(),
            forall|i: int| 0 <= i < k ==> string_views(v@)[i] != s@,
        decreases v@.len() - k,
    {
        if v[k] == *s {
            assert(string_views(v@)[k as int] == s@);
            return true;
        }
        k += 1;
    }
    false
}

/// The directory of `parent`, or the root where there is none.
pub fn directory_of(parent: Option<String>) -> (r: String)
    ensures
        r@ == directory_or_root(option_view(parent)),
{
    match parent {
        Some(dir) => dir,
        None => "/".to_owned(),
    }
}

/// Whether a configuration was installed. Everything that reads or changes
/// the configuration needs one.
pub fn has_config(state: &AppState) -> (r: bool)
    ensures
        r == (state@.config is Some),
{
    state.config.is_some()
}

/// Installs `config` as the configuration.
pub fn set_config(state: &mut AppState, config: HyprpaperConfig)
    ensures
        final(state)@ == (StateView { config: Some(config@), ..old(state)@ }),
{
    state.config = Some(config);
}

/// Replaces the bindings of the configuration by `wallpapers`.
pub fn set_wallpapers(state: &mut AppState, wallpapers: Vec<WallpaperEntry>)
    requires
        old(state)@.config is Some,
    ensures
        final(state)@ == old(state)@.with_wallpapers(bindings(wallpapers@)),
{
    let config = state.config.take().unwrap();
    state.config = Some(
        HyprpaperConfig {
            preloads: config.preloads,
            wallpapers: wallpapers,
            config_path: config.config_path,
        },
    );
}

/// Removes every binding for `monitor` from the configuration.
pub fn remove_wallpaper_of_monitor(state: &mut AppState, monitor: String)
    requires
        old(state)@.config is Some,
    ensures
        final(state)@ == old(state)@.with_wallpapers(
            without_monitor(old(state)@.wallpapers(), monitor@),
        ),
{
    let config = state.config.take().unwrap();
    let ghost all = bindings(config.wallpapers@);
    let mut kept: Vec<WallpaperEntry> = Vec::new();
    proof {
        reveal(Seq::filter);
        assert(bindings(kept@) =~= without_monitor(all.take(0), monitor@));
    }
    let entries = config.wallpapers;
    for entry in it: entries
        invariant
            bindings(it.seq()) == all,
            bindings(kept@) == without_monitor(all.take(it.index() as int), monitor@),
    {
        let ghost i = it.index() as int;
        let ghost before = bindings(kept@);
        proof {
            assert(all.take(i + 1) =~= all.take(i).push(entry@));
            all.take(i).lemma_filter_push(entry@, |b: Binding| b.monitor != monitor@);
        }
        if entry.monitor != monitor {
            kept.push(entry);
            assert(bindings(kept@) =~= before.push(entry@));
        }
    }
    assert(all.take(all.len() as int) =~= all);
    state.config = Some(
        HyprpaperConfig {
            preloads: config.preloads,
            wallpapers: kept,
            config_path: config.config_path,
        },
    );
}

/// Makes the preloads the paths of the bindings, each once, in the order in
/// which they first appear.
pub fn set_preloads_from_wallpapers(state: &mut AppState)
    requires
        old(state)@.config is Some,
    ensures
        final(state)@ == old(state)@.with_preloads(distinct_paths(old(state)@.wallpapers())),
{
    let config = state.config.take().unwrap();
    let ghost all = bindings(config.wallpapers@);
    let mut preloads: Vec<String> = Vec::new();
    assert(string_views(preloads@) =~= distinct_paths(all.take(0)));
    let mut i: usize = 0;
    while i < config.wallpapers.len()
        invariant
            i <= config.wallpapers@.len(),
            all == bindings(config.wallpapers@),
            string_views(preloads@) == distinct_paths(all.take(i as int)),
        decreases config.wallpapers@.len() - i,
    {
        let ghost before = string_views(preloads@);
        assert(all.take(i + 1).drop_last() =~= all.take(i as int));
        if !contains_text(&preloads, &config.wallpapers[i].path) {
            preloads.push(config.wallpapers[i].path.clone());
            assert(string_views(preloads@) =~= before.push(all[i as int].path));
        }
        i += 1;
    }
    assert(all.take(i as int) =~= all);
    state.config = Some(
        HyprpaperConfig {
            preloads: preloads,
            wallpapers: config.wallpapers,
            config_path: config.config_path,
        },
    );
}

/// Adds `entry` behind the bindings of the configuration.
pub fn add_wallpaper(state: &mut AppState, entry: WallpaperEntry)
    requires
        old(state)@.config is Some,
    ensures
        final(state)@ == old(state)@.with_wallpapers(old(state)@.wallpapers().push(entry@)),
{
    let mut config = state.config.take().unwrap();
    let ghost before = bindings(config.wallpapers@);
    config.wallpapers.push(entry);
    assert(bindings(config.wallpapers@) =~= before.push(entry@));
    state.config = Some(config);
}

/// Replaces the monitors by `monitors`.
pub fn set_monitors(state: &mut AppState, monitors: Vec<String>)
    ensures
        final(state)@ == (StateView { monitors: string_views(monitors@), ..old(state)@ }),
{
    state.monitors = monitors;
}

/// The monitors, in their order.
pub fn get_monitors(state: &AppState) -> (r: Vec<String>)
    ensures
        string_views(r@) == state@.monitors,
{
    let mut r: Vec<String> = Vec::new();
    let mut i: usize = 0;
    while i < state.monitors.len()
        invariant
            i <= state.monitors@.len(),
            string_views(r@) == string_views(state.monitors@).take(i as int),
        decreases state.monitors@.len() - i,
    {
        let ghost before = string_views(r@);
        r.push(state.monitors[i].clone());
        assert(string_views(r@) =~= before.push(state.monitors@[i as int]@));
        assert(string_views(state.monitors@).take(i + 1) =~= before.push(
            state.monitors@[i as int]@,
        ));
        i += 1;
    }
    assert(string_views(state.monitors@).take(i as int) =~= string_views(state.monitors@));
    r
}

/// Whether the compositor has more than one monitor.
pub fn has_more_than_one_monitors(state: &AppState) -> (r: bool)
    ensures
        r == (state@.monitors.len() > 1),
{
    state.monitors.len() > 1
}

/// Whether the configuration holds more than one binding.
pub fn has_more_than_one_wallpaper(state: &AppState) -> (r: bool)
    requires
        state@.config is Some,
    ensures
        r == (state@.wallpapers().len() > 1),
{
    state.config.as_ref().unwrap().wallpapers.len() > 1
}

/// Whether the configuration holds more bindings than there are monitors.
pub fn has_more_wallpapers_than_monitors(state: &AppState) -> (r: bool)
    requires
        state@.config is Some,
    ensures
        r == (state@.wallpapers().len() > state@.monitors.len()),
{
    state.config.as_ref().unwrap().wallpapers.len() > state.monitors.len()
}

/// Whether the configuration holds a binding.
pub fn has_wallpapers(state: &AppState) -> (r: bool)
    requires
        state@.config is Some,
    ensures
        r == (state@.wallpapers().len() > 0),
{
    state.config.as_ref().unwrap().wallpapers.len() > 0
}

/// The directory in which browsing starts: that of the first wallpaper, or
/// the root where there is no wallpaper or its path has no parent.
pub fn get_first_wallpaper_path(state: &AppState) -> (r: String)
    requires
        state@.config is Some,
    ensures
        r@ == first_wallpaper_directory(state@.wallpapers()),
{
    let config = state.config.as_ref().unwrap();
    if config.wallpapers.len() == 0 {
        "/".to_owned()
    } else {
        directory_of(parent_of(config.wallpapers[0].path.as_str()))
    }
}

/// Whether the configuration holds a binding for all monitors.
pub fn has_empty_monitor_name(state: &AppState) -> (r: bool)
    requires
        state@.config is Some,
    ensures
        r == has_binding(state@.wallpapers(), Seq::empty()),
{
    let config = state.config.as_ref().unwrap();
    let ghost ws = state@.wallpapers();
    let mut i: usize = 0;
    while i < config.wallpapers.len()
        invariant
            i <= config.wallpapers@.len(),
            ws == bindings(config.wallpapers@),
            ws == state@.wallpapers(),
            forall|k: int| 0 <= k < i ==> (#[trigger] ws[k]).monitor.len() != 0,
        decreases config.wallpapers@.len() - i,
    {
        if config.wallpapers[i].monitor.as_str().is_empty() {
            assert(ws[i as int].monitor =~= Seq::empty());
            return true;
        }
        i += 1;
    }
    false
}

/// Whether the configuration holds a binding for `monitor`.
pub fn has_monitor(state: &AppState, monitor: String) -> (r: bool)
    requires
        state@.config is Some,
    ensures
        r == has_binding(state@.wallpapers(), monitor@),
{
    let config = state.config.as_ref().unwrap();
    let ghost ws = state@.wallpapers();
    let mut i: usize = 0;
    while i < config.wallpapers.len()
        invariant
            i <= config.wallpapers@.len(),
            ws == bindings(config.wallpapers@),
            ws == state@.wallpapers(),
            forall|k: int| 0 <= k < i ==> (#[trigger] ws[k]).monitor != monitor@,
        decreases config.wallpapers@.len() - i,
    {
        if config.wallpapers[i].monitor == monitor {
            assert(ws[i as int].monitor == monitor@);
            return true;
        }
        i += 1;
    }
    false
}

/// What saving the configuration writes, and where.
pub fn save_config(state: &AppState) -> (r: FileWrite)
    requires
        state@.config is Some,
    ensures
        r@.path == state@.config.unwrap().config_path,
        r@.contents == serialize(state@.config.unwrap()),
{
    state.config.as_ref().unwrap().save_config()
}

/// Selects `monitor`; the empty name selects all monitors.
pub fn set_selected_monitor(state: &mut AppState, monitor: String)
    ensures
        final(state)@ == (StateView { selected_monitor: monitor@, ..old(state)@ }),
{
    state.selected_monitor = monitor;
}

/// The selected monitor; the empty name stands for all monitors.
pub fn get_selected_monitor(state: &AppState) -> (r: String)
    ensures
        r@ == state@.selected_monitor,
{
    state.selected_monitor.clone()
}

/// Assigns the wallpaper at `path` to the selected monitor, or to all
/// monitors where none is selected, and brings the preloads in line with
/// the bindings.
pub fn assign_wallpaper(state: &mut AppState, path: String) -> (r: Assignment)
    requires
        old(state)@.config is Some,
    ensures
        final(state)@ == after_assignment(old(state)@, path@),
        r@ == assignment_of(old(state)@, path@),
        final(state)@.config.unwrap().preloads == distinct_paths(final(state)@.wallpapers()),
        one_per_monitor(old(state)@.wallpapers()) ==> one_per_monitor(final(state)@.wallpapers()),
{
    proof {
        if one_per_monitor(old(state)@.wallpapers()) {
            lemma_assigned_one_per_monitor(
                old(state)@.wallpapers(),
                old(state)@.monitors.len(),
                old(state)@.selected_monitor,
                path@,
            );
        }
    }
    let had_multiple = has_more_than_one_wallpaper(state);
    let monitor = get_selected_monitor(state);
    if monitor.as_str().is_empty() {
        let none: Vec<WallpaperEntry> = Vec::new();
        assert(bindings(none@) =~= Seq::empty());
        set_wallpapers(state, none);
    } else {
        remove_wallpaper_of_monitor(state, monitor.clone());
    }
    add_wallpaper(state, WallpaperEntry::new(monitor.clone(), path.clone()));
    if has_more_wallpapers_than_monitors(state) {
        remove_wallpaper_of_monitor(state, String::new());
    }
    set_preloads_from_wallpapers(state);
    Assignment { monitor, path, had_multiple }
}

/// No two bindings are for the same monitor.
pub open spec fn one_per_monitor(ws: Seq<Binding>) -> bool {
    forall|i: int, j: int|
        0 <= i < j < ws.len() ==> (#[trigger] ws[i]).monitor != (#[trigger] ws[j]).monitor
}

/// A binding for all monitors, if there is one, is the only binding.
pub open spec fn catch_all_is_alone(ws: Seq<Binding>) -> bool {
    has_binding(ws, Seq::empty()) ==> ws.len() == 1
}

/// Whether a binding of `ws` has the path `p`.
pub open spec fn uses_path(ws: Seq<Binding>, p: Seq<char>) -> bool {
    exists|i: int| 0 <= i < ws.len() && (#[trigger] ws[i]).path == p
}

/// The index of the first binding of `ws` with the path `p`, or `ws.len()`
/// where none has it.
pub open spec fn first_use(ws: Seq<Binding>, p: Seq<char>) -> int
    decreases ws.len(),
{
    if ws.len() == 0 {
        0
    } else {
        let k = first_use(ws.drop_last(), p);
        if k < ws.len() - 1 {
            k
        } else if ws.last().path == p {
            ws.len() - 1
        } else {
            ws.len() as int
        }
    }
}

/// The bindings after one assignment for each of `picks`, in their order;
/// a pick holds the monitor that was selected and the path.
pub open spec fn assigned_all(ws: Seq<Binding>, monitors: nat, picks: Seq<Binding>) -> Seq<Binding>
    decreases picks.len(),
{
    if picks.len() == 0 {
        ws
    } else {
        assigned(
            assigned_all(ws, monitors, picks.drop_last()),
            monitors,
            picks.last().monitor,
            picks.last().path,
        )
    }
}

/// What `without_monitor` keeps: no binding for `m`, every other binding,
/// and nothing else.
proof fn lemma_without(ws: Seq<Binding>, m: Seq<char>)
    ensures
        !has_binding(without_monitor(ws, m), m),
        forall|o: Seq<char>| #[trigger]
            has_binding(without_monitor(ws, m), o) ==> has_binding(ws, o),
        forall|o: Seq<char>|
            o != m && #[trigger] has_binding(ws, o) ==> has_binding(without_monitor(ws, m), o),
        one_per_monitor(ws) ==> one_per_monitor(without_monitor(ws, m)),
        !has_binding(ws, m) ==> without_monitor(ws, m) == ws,
    decreases ws.len(),
{
    reveal(Seq::filter);
    let r = without_monitor(ws, m);
    if ws.len() == 0 {
        assert(r =~= ws);
    } else {
        let head = ws.drop_last();
        let last = ws.last();
        let f = without_monitor(head, m);
        lemma_without(head, m);
        assert(r == if last.monitor != m {
            f.push(last)
        } else {
            f
        });
        if has_binding(r, m) {
            let i = choose|i: int| 0 <= i < r.len() && (#[trigger] r[i]).monitor == m;
            if i < f.len() {
                assert(f[i].monitor == m);
            }
        }
        assert forall|o: Seq<char>| has_binding(r, o) implies has_binding(ws, o) by {
            let i = choose|i: int| 0 <= i < r.len() && (#[trigger] r[i]).monitor == o;
            if i < f.len() {
                assert(f[i].monitor == o);
                assert(has_binding(f, o));
                let k = choose|k: int| 0 <= k < head.len() && (#[trigger] head[k]).monitor == o;
                assert(ws[k].monitor == o);
            } else {
                assert(ws[ws.len() - 1].monitor == o);
            }
        }
        assert forall|o: Seq<char>| o != m && has_binding(ws, o) implies has_binding(r, o) by {
            let i = choose|i: int| 0 <= i < ws.len() && (#[trigger] ws[i]).monitor == o;
            if i < head.len() {
                assert(head[i].monitor == o);
                assert(has_binding(head, o));
                let k = choose|k: int| 0 <= k < f.len() && (#[trigger] f[k]).monitor == o;
                assert(r[k].monitor == o);
            } else {
                assert(r[r.len() - 1].monitor == o);
            }
        }
        if one_per_monitor(ws) {
            assert forall|i: int, j: int| 0 <= i < j < head.len() implies (#[trigger] head[i]).monitor
                != (#[trigger] head[j]).monitor by {
                assert(head[i] == ws[i] && head[j] == ws[j]);
            }
            assert forall|i: int, j: int| 0 <= i < j < r.len() implies (#[trigger] r[i]).monitor
                != (#[trigger] r[j]).monitor by {
                if j < f.len() {
                    assert(r[i] == f[i] && r[j] == f[j]);
                } else if f[i].monitor == last.monitor {
                    assert(has_binding(f, last.monitor));
                    let k = choose|k: int|
                        0 <= k < head.len() && (#[trigger] head[k]).monitor == last.monitor;
                    assert(ws[k].monitor == ws[ws.len() - 1].monitor);
                }
            }
        }
        if !has_binding(ws, m) {
            if has_binding(head, m) {
                let k = choose|k: int| 0 <= k < head.len() && (#[trigger] head[k]).monitor == m;
                assert(ws[k].monitor == m);
            }
            assert(ws[ws.len() - 1].monitor != m);
            assert(r =~= ws);
        }
    }
}

/// `without_monitor` on a sequence with one more binding at its end.
proof fn lemma_without_push(ws: Seq<Binding>, e: Binding, m: Seq<char>)
    ensures
        without_monitor(ws.push(e), m) == if e.monitor != m {
            without_monitor(ws, m).push(e)
        } else {
            without_monitor(ws, m)
        },
{
    ws.lemma_filter_push(e, |b: Binding| b.monitor != m);
}

/// An assignment keeps the bindings at one for each monitor.
pub proof fn lemma_assigned_one_per_monitor(
    ws: Seq<Binding>,
    monitors: nat,
    selected: Seq<char>,
    path: Seq<char>,
)
    requires
        one_per_monitor(ws),
    ensures
        one_per_monitor(assigned(ws, monitors, selected, path)),
{
    let e = Binding { monitor: selected, path: path };
    let kept = if selected.len() == 0 {
        Seq::empty()
    } else {
        without_monitor(ws, selected)
    };
    let added = kept.push(e);
    lemma_without(ws, selected);
    assert forall|i: int, j: int| 0 <= i < j < added.len() implies (#[trigger] added[i]).monitor
        != (#[trigger] added[j]).monitor by {
        if j < kept.len() {
            assert(added[i] == kept[i] && added[j] == kept[j]);
        } else if kept[i].monitor == selected {
            assert(has_binding(kept, selected));
        }
    }
    lemma_without(added, Seq::empty());
}

/// Assignments, however many, keep the bindings at one for each monitor.
pub proof fn lemma_assigned_all_one_per_monitor(
    ws: Seq<Binding>,
    monitors: nat,
    picks: Seq<Binding>,
)
    requires
        one_per_monitor(ws),
    ensures
        one_per_monitor(assigned_all(ws, monitors, picks)),
    decreases picks.len(),
{
    if picks.len() > 0 {
        lemma_assigned_all_one_per_monitor(ws, monitors, picks.drop_last());
        lemma_assigned_one_per_monitor(
            assigned_all(ws, monitors, picks.drop_last()),
            monitors,
            picks.last().monitor,
            picks.last().path,
        );
    }
}

/// After an assignment the binding for all monitors, if one is left, is the
/// only binding, but in one case: a single monitor was selected, there was a
/// binding for all monitors, and the bindings do not outnumber the monitors.
pub proof fn lemma_assigned_catch_all(
    ws: Seq<Binding>,
    monitors: nat,
    selected: Seq<char>,
    path: Seq<char>,
)
    ensures
        catch_all_is_alone(assigned(ws, monitors, selected, path)) <==> !(selected.len() > 0
            && has_binding(ws, Seq::empty()) && without_monitor(ws, selected).len() + 1
            <= monitors),
{
    let none = Seq::<char>::empty();
    let e = Binding { monitor: selected, path: path };
    let kept = if selected.len() == 0 {
        Seq::empty()
    } else {
        without_monitor(ws, selected)
    };
    let added = kept.push(e);
    let r = assigned(ws, monitors, selected, path);
    lemma_without(added, none);
    lemma_without(ws, selected);
    if selected.len() == 0 {
        assert(selected =~= none);
        lemma_without_push(kept, e, none);
        reveal(Seq::filter);
        assert(without_monitor(kept, none) =~= kept);
    } else if added.len() <= monitors {
        assert(added[added.len() - 1].monitor == selected);
        if has_binding(ws, none) {
            assert(has_binding(kept, none));
            let k = choose|k: int| 0 <= k < kept.len() && (#[trigger] kept[k]).monitor == none;
            assert(added[k].monitor == none);
            assert(has_binding(added, none));
        } else if has_binding(added, none) {
            let k = choose|k: int| 0 <= k < added.len() && (#[trigger] added[k]).monitor == none;
            assert(kept[k].monitor == none);
            assert(has_binding(kept, none));
        }
    }
}

/// The same assignment made twice in a row leaves the bindings that it left
/// the first time.
pub proof fn lemma_assigned_twice(
    ws: Seq<Binding>,
    monitors: nat,
    selected: Seq<char>,
    path: Seq<char>,
)
    ensures
        assigned(assigned(ws, monitors, selected, path), monitors, selected, path) == assigned(
            ws,
            monitors,
            selected,
            path,
        ),
{
    let none = Seq::<char>::empty();
    let e = Binding { monitor: selected, path: path };
    let once = assigned(ws, monitors, selected, path);
    if selected.len() > 0 {
        let kept = without_monitor(ws, selected);
        let added = kept.push(e);
        lemma_without(ws, selected);
        let rest = if added.len() > monitors {
            without_monitor(kept, none)
        } else {
            kept
        };
        lemma_without_push(kept, e, none);
        assert(once == rest.push(e));
        lemma_without(kept, none);
        assert(!has_binding(rest, selected));
        lemma_without_push(rest, e, selected);
        lemma_without(rest, selected);
        assert(without_monitor(once, selected) == rest);
        lemma_without_push(rest, e, none);
        lemma_without(rest, none);
    }
}

/// `first_use` is the position before which no binding has the path `p` and
/// at which, if it is inside `ws`, a binding has it.
proof fn lemma_first_use(ws: Seq<Binding>, p: Seq<char>)
    ensures
        0 <= first_use(ws, p) <= ws.len(),
        forall|i: int| 0 <= i < first_use(ws, p) ==> (#[trigger] ws[i]).path != p,
        first_use(ws, p) < ws.len() ==> ws[first_use(ws, p)].path == p,
        uses_path(ws, p) <==> first_use(ws, p) < ws.len(),
    decreases ws.len(),
{
    if ws.len() > 0 {
        let head = ws.drop_last();
        lemma_first_use(head, p);
        assert forall|i: int| 0 <= i < first_use(ws, p) implies (#[trigger] ws[i]).path != p by {
            if i < head.len() {
                assert(ws[i] == head[i]);
            }
        }
        if first_use(ws, p) < ws.len() {
            let k = first_use(ws, p);
            if k < head.len() {
                assert(ws[k] == head[k]);
            }
            assert(ws[k].path == p);
        }
    }
}

/// The distinct paths are the paths of the bindings, each once, in the order
/// of their first use.
pub proof fn lemma_distinct_paths(ws: Seq<Binding>)
    ensures
        distinct_paths(ws).no_duplicates(),
        forall|p: Seq<char>|
            #![trigger distinct_paths(ws).contains(p)]
            #![trigger uses_path(ws, p)]
            distinct_paths(ws).contains(p) <==> uses_path(ws, p),
        forall|a: int, b: int|
            0 <= a < b < distinct_paths(ws).len() ==> first_use(ws, #[trigger] distinct_paths(ws)[a])
                < first_use(ws, #[trigger] distinct_paths(ws)[b]),
    decreases ws.len(),
{
    let d = distinct_paths(ws);
    if ws.len() > 0 {
        let head = ws.drop_last();
        let last = ws.last().path;
        let dh = distinct_paths(head);
        lemma_distinct_paths(head);
        assert forall|p: Seq<char>| d.contains(p) <==> uses_path(ws, p) by {
            if d.contains(p) {
                let i = choose|i: int| 0 <= i < d.len() && d[i] == p;
                if i < dh.len() {
                    assert(dh.contains(dh[i]));
                    let k = choose|k: int| 0 <= k < head.len() && (#[trigger] head[k]).path == p;
                    assert(ws[k].path == p);
                } else {
                    assert(ws[ws.len() - 1].path == p);
                }
            }
            if uses_path(ws, p) {
                let k = choose|k: int| 0 <= k < ws.len() && (#[trigger] ws[k]).path == p;
                if k < head.len() {
                    assert(head[k].path == p);
                    assert(uses_path(head, p));
                    let i = choose|i: int| 0 <= i < dh.len() && dh[i] == p;
                    assert(d[i] == p);
                } else if dh.contains(last) {
                } else {
                    assert(d[d.len() - 1] == p);
                }
            }
        }
        assert forall|a: int, b: int| 0 <= a < b < d.len() implies first_use(ws, #[trigger] d[a])
            < first_use(ws, #[trigger] d[b]) by {
            lemma_first_use(head, d[a]);
            lemma_first_use(head, d[b]);
            assert(dh.contains(dh[a]));
            if b < dh.len() {
                assert(dh.contains(dh[b]));
            }
        }
    }
}

/// What an assignment binds: where a single monitor is selected, its new
/// binding is the last one and the only one for that monitor; where all
/// monitors are selected, it is the only binding, or none is left if there
/// is no monitor.
pub proof fn lemma_assigned_binds_selected(
    ws: Seq<Binding>,
    monitors: nat,
    selected: Seq<char>,
    path: Seq<char>,
)
    ensures
        selected.len() > 0 ==> {
            let r = assigned(ws, monitors, selected, path);
            &&& r.len() > 0
            &&& r.last() == (Binding { monitor: selected, path: path })
            &&& !has_binding(r.drop_last(), selected)
        },
        selected.len() == 0 ==> assigned(ws, monitors, selected, path) == if monitors >= 1 {
            seq![Binding { monitor: selected, path: path }]
        } else {
            Seq::empty()
        },
{
    let none = Seq::<char>::empty();
    let e = Binding { monitor: selected, path: path };
    if selected.len() > 0 {
        let kept = without_monitor(ws, selected);
        lemma_without(ws, selected);
        lemma_without_push(kept, e, none);
        lemma_without(kept, none);
        let r = assigned(ws, monitors, selected, path);
        let rest = if kept.len() + 1 > monitors {
            without_monitor(kept, none)
        } else {
            kept
        };
        assert(r == rest.push(e));
        assert(r.drop_last() =~= rest);
    } else {
        assert(selected =~= none);
        let kept = Seq::<Binding>::empty();
        lemma_without_push(kept, e, none);
        reveal(Seq::filter);
        assert(without_monitor(kept, none) =~= kept);
        assert(kept.push(e) =~= seq![e]);
    }
}

/// The same assignment made twice in a row leaves the state that it left
/// the first time.
pub proof fn lemma_after_assignment_twice(s: StateView, path: Seq<char>)
    requires
        s.config is Some,
    ensures
        after_assignment(after_assignment(s, path), path) == after_assignment(s, path),
{
    lemma_assigned_twice(s.wallpapers(), s.monitors.len(), s.selected_monitor, path);
}

} // verus!
