//! What is said to the compositor and to the running daemon: the monitors
//! that the compositor reports, and the commands that make the daemon show
//! what the configuration states.

use vstd::prelude::*;
use vstd::string::StringExecFns;
use crate::hypr::hyprpaper::{serialize, Binding, FileWrite, FileWriteView, WallpaperEntry};
use crate::state::{
    after_assignment, assign_wallpaper, assignment_of, distinct_paths, one_per_monitor,
    save_config, AppState, Assignment, AssignmentView,
};
use crate::text::{
    chars_of, lines, slice_views, split_lines, string_of, string_views, trim, trimmed,
};

verus! {

/// The shell command that lists the monitors of the compositor, one name on
/// each line.
pub const MONITORS_QUERY: &'static str = "hyprctl monitors | awk '/Monitor/ {print $2}'";

/// A command to the daemon, or about its process.
pub enum DaemonCommand {
    /// Ends the daemon's process.
    Terminate,
    /// Starts the daemon, which then reads its configuration file.
    Launch,
    /// Has the daemon load an image ahead of its use.
    Preload(String),
    /// Has the daemon show a loaded image on a monitor, or on all of them.
    Wallpaper(WallpaperEntry),
    /// Has the daemon drop the images that no monitor shows.
    UnloadUnused,
}

/// What a `DaemonCommand` stands for.
pub enum CommandView {
    Terminate,
    Launch,
    Preload(Seq<char>),
    Wallpaper(Binding),
    UnloadUnused,
}

impl View for DaemonCommand {
    type V = CommandView;

    open spec fn view(&self) -> CommandView {
        match self {
            DaemonCommand::Terminate => CommandView::Terminate,
            DaemonCommand::Launch => CommandView::Launch,
            DaemonCommand::Preload(path) => CommandView::Preload(path@),
            DaemonCommand::Wallpaper(entry) => CommandView::Wallpaper(entry@),
            DaemonCommand::UnloadUnused => CommandView::UnloadUnused,
        }
    }
}

impl CommandView {
    /// The line that a shell runs for this command.
    pub open spec fn shell_line(self) -> Seq<char> {
        match self {
            CommandView::Terminate => "pkill hyprpaper"@,
            CommandView::Launch => "hyprctl dispatch exec hyprpaper"@,
            CommandView::Preload(path) => "hyprctl hyprpaper preload "@ + path,
            CommandView::Wallpaper(b) => "hyprctl hyprpaper wallpaper "@ + b.monitor + ","@
                + b.path,
            CommandView::UnloadUnused => "hyprctl hyprpaper unload unused"@,
        }
    }
}

/// The commands that a sequence of commands stands for.
pub open spec fn command_views(v: Seq<DaemonCommand>) -> Seq<CommandView> {
    v.map_values(|c: DaemonCommand| c@)
}

/// The commands that bring the daemon in line after an assignment. One to
/// all monitors that replaced more than one binding restarts the daemon;
/// any other loads the image and shows it. Either way the daemon then drops
/// what it no longer shows.
pub open spec fn reload_commands(a: AssignmentView) -> Seq<CommandView> {
    if a.monitor.len() == 0 && a.had_multiple {
        seq![CommandView::Terminate, CommandView::Launch, CommandView::UnloadUnused]
    } else {
        seq![
            CommandView::Preload(a.path),
            CommandView::Wallpaper(Binding { monitor: a.monitor, path: a.path }),
            CommandView::UnloadUnused,
        ]
    }
}

/// The name on a line of the compositor's answer, if the line holds one.
pub open spec fn line_monitor(raw: Seq<char>) -> Option<Seq<char>> {
    if trim(raw).len() > 0 {
        Some(trim(raw))
    } else {
        None
    }
}

/// The monitors that the compositor's answer names, in its order.
pub open spec fn monitor_names(output: Seq<char>) -> Seq<Seq<char>> {
    lines(output).filter_map(|l: Seq<char>| line_monitor(l))
}

/// What is to be done after an assignment: the file to write, then the
/// commands to run.
pub struct WallpaperChange {
    pub save: FileWrite,
    pub commands: Vec<DaemonCommand>,
}

/// What a `WallpaperChange` stands for.
pub struct WallpaperChangeView {
    pub save: FileWriteView,
    pub commands: Seq<CommandView>,
}

impl View for WallpaperChange {
    type V = WallpaperChangeView;

    open spec fn view(&self) -> WallpaperChangeView {
        WallpaperChangeView { save: self.save@, commands: command_views(self.commands@) }
    }
}

impl DaemonCommand {
    /// The line that a shell runs for this command.
    pub fn shell_line(&self) -> (r: String)
        ensures
            r@ == self@.shell_line(),
    {
        match self {
            DaemonCommand::Terminate => "pkill hyprpaper".to_owned(),
            DaemonCommand::Launch => "hyprctl dispatch exec hyprpaper".to_owned(),
            DaemonCommand::Preload(path) => {
                "hyprctl hyprpaper preload ".to_owned().concat(path.as_str())
            },
            DaemonCommand::Wallpaper(entry) => {
                let mut r = "hyprctl hyprpaper wallpaper ".to_owned();
                r.append(entry.monitor.as_str());
                r.append(",");
                r.append(entry.path.as_str());
                r
            },
            DaemonCommand::UnloadUnused => "hyprctl hyprpaper unload unused".to_owned(),
        }
    }
}

/// The commands that bring the daemon in line after `assignment`.
pub fn apply(assignment: &Assignment) -> (r: Vec<DaemonCommand>)
    ensures
        command_views(r@) == reload_commands(assignment@),
{
    let mut r: Vec<DaemonCommand> = Vec::new();
    if assignment.monitor.as_str().is_empty() && assignment.had_multiple {
        r.push(DaemonCommand::Terminate);
        r.push(DaemonCommand::Launch);
    } else {
        r.push(DaemonCommand::Preload(assignment.path.clone()));
        r.push(
            DaemonCommand::Wallpaper(
                WallpaperEntry::new(assignment.monitor.clone(), assignment.path.clone()),
            ),
        );
    }
    r.push(DaemonCommand::UnloadUnused);
    assert(command_views(r@) =~= reload_commands(assignment@));
    r
}

/// Assigns the wallpaper at `path` as `assign_wallpaper` does, and says what
/// is to be written and run for it: the configuration file with its new
/// text, then the commands that bring the daemon in line.
pub fn set_wallpaper(state: &mut AppState, path: String) -> (r: WallpaperChange)
    requires
        old(state)@.config is Some,
    ensures
        final(state)@ == after_assignment(old(state)@, path@),
        r@.save.path == old(state)@.config.unwrap().config_path,
        r@.save.contents == serialize(after_assignment(old(state)@, path@).config.unwrap()),
        r@.commands == reload_commands(assignment_of(old(state)@, path@)),
        final(state)@.config.unwrap().preloads == distinct_paths(final(state)@.wallpapers()),
        one_per_monitor(old(state)@.wallpapers()) ==> one_per_monitor(final(state)@.wallpapers()),
{
    let assignment = assign_wallpaper(state, path);
    let save = save_config(state);
    let commands = apply(&assignment);
    WallpaperChange { save, commands }
}

/// The monitors that `output`, the answer to `MONITORS_QUERY`, names: its
/// lines without the whitespace around them, but for the blank ones.
pub fn get_monitors(output: &str) -> (r: Vec<String>)
    ensures
        string_views(r@) == monitor_names(output@),
{
    let chars = chars_of(output);
    let ls = split_lines(chars.as_slice());
    let mut r: Vec<String> = Vec::new();
    let ghost all = slice_views(ls@);
    let mut i: usize = 0;
    while i < ls.len()
        invariant
            i <= ls@.len(),
            all == slice_views(ls@),
            string_views(r@) == all.take(i as int).filter_map(|l: Seq<char>| line_monitor(l)),
        decreases ls@.len() - i,
    {
        let ghost before = string_views(r@);
        let name = trimmed(ls[i]);
        if name.len() > 0 {
            r.push(string_of(name));
            assert(string_views(r@) =~= before.push(name@));
        }
        proof {
            assert(all[i as int] == ls@[i as int]@);
            all.lemma_filter_map_take_succ(|l: Seq<char>| line_monitor(l), i as int);
        }
        i += 1;
    }
    assert(all.take(i as int) =~= all);
    r
}

/// Whether every command of `cs` that shows an image comes after one that
/// loads that image.
pub open spec fn loads_before_showing(cs: Seq<CommandView>) -> bool {
    forall|i: int|
        0 <= i < cs.len() && (#[trigger] cs[i]) is Wallpaper ==> exists|j: int|
            0 <= j < i && #[trigger] cs[j] == CommandView::Preload(cs[i]->Wallpaper_0.path)
}

/// The daemon is told to load an image before it is told to show it, and
/// the last thing it is told is to drop what it no longer shows.
pub proof fn lemma_reload_commands_order(a: AssignmentView)
    ensures
        loads_before_showing(reload_commands(a)),
        reload_commands(a).last() == CommandView::UnloadUnused,
{
    let cs = reload_commands(a);
    assert forall|i: int| 0 <= i < cs.len() && (#[trigger] cs[i]) is Wallpaper implies exists|
        j: int,
    | 0 <= j < i && #[trigger] cs[j] == CommandView::Preload(cs[i]->Wallpaper_0.path) by {
        assert(cs[0] == CommandView::Preload(a.path));
    }
}

} // verus!
