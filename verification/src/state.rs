//! The state of the program, and how keys and events change it.
use crate::drive::{apply_drive_listing, check_drive, check_text, checked, present};
use crate::files::FileItem;
use crate::naming::is_named;
use crate::number::{dec, decimal};
use crate::occasion::{movie_paths, rated_shots, Cluster, UploadMode};
use crate::order::TextMap;
use crate::paths::{file_name, file_name_of, is_name, join_path, joined, lemma_joined};
use crate::plan::{assigned, assigned_count, jobs_for, marked, plan, upload_count};
use crate::sorting::{lemma_sorted, sorted};
use crate::text::{
    all_space, contains_char, copy_of, has_text, is_space, lemma_text_within, lemma_trim_tight,
    lemma_trimmed, same, trim, trim_str,
};
use crate::worker::{begun, feasible, wf, Worker};
use vstd::prelude::*;

verus! {

/// What the program shows in front of the occasions.
#[derive(Clone, Copy, PartialEq, Eq, Structural, Debug)]
pub enum Mode {
    Browse,
    Edit,
    Confirm,
    Running,
    Done,
}

/// A key.
#[derive(Clone, Copy, PartialEq, Eq, Structural, Debug)]
pub enum Key {
    Char(char),
    Enter,
    Esc,
    Backspace,
    Up,
    Down,
    Other,
}

/// What is to be done after a key was pressed.
#[derive(Clone, Copy, PartialEq, Eq, Structural, Debug)]
pub enum Command {
    /// Nothing more.
    Stay,
    /// Leave the program.
    Quit,
    /// Review the selected occasion; all photos, or those that reach the bar.
    Review { only_rated: bool },
    /// Review the shots of the selected occasion that have any rating.
    Starred,
    /// Play the movies of the selected occasion.
    Movies,
    /// Cut the movies of the selected occasion.
    Wcut,
    /// See which occasions are on the Drive.
    CheckDrive,
    /// Show the removed shots of the selected occasion.
    ViewRemoved,
    /// Send the removed shots of the selected occasion to the trash.
    Trash,
    /// Rename the folder of the selected occasion.
    Rename,
    /// Move or copy the files, and upload the folders.
    Execute,
}

/// The state of the program.
pub struct App {
    /// The library.
    pub pictures: String,
    /// The destination of uploads.
    pub dest: String,
    pub clusters: Vec<Cluster>,
    /// The selected occasion.
    pub selected: Option<usize>,
    pub mode: Mode,
    /// The name that is being edited.
    pub edit_buf: String,
    /// Whether files are moved, not copied.
    pub do_move: bool,
    /// Whether the occasions are those of the library.
    pub library: bool,
    /// The bar: the least rating, 1 to 5, that counts.
    pub min_rating: u8,
    /// What the work came to.
    pub log: Vec<String>,
    /// What is shown while something is being done.
    pub notice: Option<String>,
    /// What the last action came to.
    pub status: String,
    /// Whether the answer of the first look at the Drive was noted.
    pub drive_applied: bool,
}

/// The place of the selected occasion.
pub open spec fn sel(a: App) -> int {
    match a.selected {
        Some(i) => i as int,
        None => 0,
    }
}

/// What holds of the state at all times: the bar is between 1 and 5, and the selection within
/// the occasions.
pub open spec fn sound(a: App) -> bool {
    &&& 1 <= a.min_rating <= 5
    &&& sel(a) < a.clusters@.len() || sel(a) == 0
}

/// What to upload next of an occasion, in turn: nothing, all, photos, and rated photos where
/// there are any.
pub open spec fn next_mode(up: UploadMode, any_rated: bool) -> UploadMode {
    match up {
        UploadMode::No => UploadMode::All,
        UploadMode::All => UploadMode::Photos,
        UploadMode::Photos => if any_rated {
            UploadMode::Rated
        } else {
            UploadMode::No
        },
        UploadMode::Rated => UploadMode::No,
    }
}

/// Whether `b` is `a` with the selected occasion, where there is one, changed to `c`.
pub open spec fn with_selected(a: App, b: App, c: Cluster) -> bool {
    &&& b == (App { clusters: b.clusters, ..a })
    &&& b.clusters@ == a.clusters@.update(sel(a), c)
}

/// Whether there is a selected occasion.
pub open spec fn has_selected(a: App) -> bool {
    sel(a) < a.clusters@.len()
}

/// The selected occasion.
pub open spec fn selected(a: App) -> Cluster {
    a.clusters@[sel(a)]
}

/// Whether there is work to be confirmed: in the library an upload, else an assigned occasion.
pub open spec fn ready(a: App) -> bool {
    if a.library {
        a.clusters@.filter(|c: Cluster| marked(c)).len() > 0
    } else {
        a.clusters@.filter(|c: Cluster| assigned(c)).len() > 0
    }
}

/// The state `b` and the command that follow from `a` when `k` is pressed over the occasions;
/// `ctrl` says whether Control is held.
pub open spec fn browsed(a: App, k: Key, ctrl: bool, b: App, cmd: Command) -> bool {
    if k == Key::Char('q') || (k == Key::Char('c') && ctrl) {
        b == a && cmd == Command::Quit
    } else if k == Key::Down || k == Key::Char('j') {
        let next = if sel(a) + 1 < a.clusters@.len() {
            sel(a) + 1
        } else if a.clusters@.len() > 0 {
            a.clusters@.len() - 1
        } else {
            0
        };
        b == (App { selected: Some(next as usize), ..a }) && cmd == Command::Stay
    } else if k == Key::Up || k == Key::Char('k') {
        let next = if sel(a) > 0 {
            sel(a) - 1
        } else {
            0
        };
        b == (App { selected: Some(next as usize), ..a }) && cmd == Command::Stay
    } else if k == Key::Char('e') || k == Key::Char('r') {
        cmd == Command::Stay && if has_selected(a) {
            b == (App { edit_buf: selected(a).target, mode: Mode::Edit, ..a })
        } else {
            b == a
        }
    } else if k == Key::Char('v') || k == Key::Enter {
        b == a && cmd == (Command::Review { only_rated: false })
    } else if k == Key::Char('f') {
        b == a && cmd == (Command::Review { only_rated: true })
    } else if k == Key::Char('m') {
        b == a && cmd == Command::Movies
    } else if k == Key::Char('w') {
        b == a && cmd == Command::Wcut
    } else if k == Key::Char('C') {
        b == a && cmd == Command::CheckDrive
    } else if k == Key::Char('R') {
        b == a && cmd == Command::ViewRemoved
    } else if k == Key::Char('T') {
        b == a && cmd == Command::Trash
    } else if k == Key::Char('u') {
        cmd == Command::Stay && if has_selected(a) {
            let c = selected(a);
            with_selected(
                a,
                b,
                Cluster {
                    up: next_mode(c.up, rated_shots(c.ratings@, a.min_rating).len() > 0),
                    ..c
                },
            )
        } else {
            b == a
        }
    } else if k == Key::Char('[') {
        cmd == Command::Stay && b == (App {
            min_rating: if a.min_rating > 1 {
                (a.min_rating - 1) as u8
            } else {
                1
            },
            ..a
        })
    } else if k == Key::Char(']') {
        cmd == Command::Stay && b == (App {
            min_rating: if a.min_rating < 5 {
                (a.min_rating + 1) as u8
            } else {
                5
            },
            ..a
        })
    } else if k == Key::Char('1') {
        cmd == Command::Stay && b == (App { min_rating: 1, ..a })
    } else if k == Key::Char('2') {
        cmd == Command::Stay && b == (App { min_rating: 2, ..a })
    } else if k == Key::Char('3') {
        cmd == Command::Stay && b == (App { min_rating: 3, ..a })
    } else if k == Key::Char('4') {
        cmd == Command::Stay && b == (App { min_rating: 4, ..a })
    } else if k == Key::Char('5') {
        cmd == Command::Stay && b == (App { min_rating: 5, ..a })
    } else if k == Key::Char('s') || k == Key::Char('S') {
        b == a && cmd == Command::Starred
    } else if k == Key::Char('d') {
        cmd == Command::Stay && if !a.library && has_selected(a) {
            let c = selected(a);
            with_selected(a, b, Cluster { skip: !c.skip, ..c })
        } else {
            b == a
        }
    } else if k == Key::Char('a') {
        cmd == Command::Stay && b == (App {
            do_move: if a.library {
                a.do_move
            } else {
                !a.do_move
            },
            ..a
        })
    } else if k == Key::Char('x') {
        cmd == Command::Stay && b == (App {
            mode: if ready(a) {
                Mode::Confirm
            } else {
                a.mode
            },
            ..a
        })
    } else {
        b == a && cmd == Command::Stay
    }
}

/// The state `b` and the command that follow from `a` when `k` is pressed while a name is
/// edited.
pub open spec fn edited(a: App, k: Key, b: App, cmd: Command) -> bool {
    match k {
        Key::Esc => cmd == Command::Stay && b == (App { mode: Mode::Browse, ..a }),
        Key::Enter => if a.library {
            cmd == Command::Rename && b == (App { mode: Mode::Browse, ..a })
        } else {
            cmd == Command::Stay && if has_selected(a) {
                with_selected(
                    App { mode: Mode::Browse, ..a },
                    b,
                    Cluster { target: a.edit_buf, suggested: false, skip: false, ..selected(a) },
                )
            } else {
                b == (App { mode: Mode::Browse, ..a })
            }
        },
        Key::Backspace => {
            &&& cmd == Command::Stay
            &&& b == (App { edit_buf: b.edit_buf, ..a })
            &&& b.edit_buf@ == if a.edit_buf@.len() > 0 {
                a.edit_buf@.drop_last()
            } else {
                a.edit_buf@
            }
        },
        Key::Char(ch) => {
            &&& cmd == Command::Stay
            &&& b == (App { edit_buf: b.edit_buf, ..a })
            &&& b.edit_buf@ == a.edit_buf@.push(ch)
        },
        _ => cmd == Command::Stay && b == a,
    }
}

/// The state `b` and the command that follow from `a` when `k` is pressed.
pub open spec fn pressed(a: App, k: Key, ctrl: bool, b: App, cmd: Command) -> bool {
    match a.mode {
        Mode::Browse => browsed(a, k, ctrl, b, cmd),
        Mode::Edit => edited(a, k, b, cmd),
        Mode::Confirm => if k == Key::Char('y') {
            b == a && cmd == Command::Execute
        } else if k == Key::Char('n') || k == Key::Esc {
            b == (App { mode: Mode::Browse, ..a }) && cmd == Command::Stay
        } else {
            b == a && cmd == Command::Stay
        },
        Mode::Running => b == a && cmd == Command::Stay,
        Mode::Done => b == a && cmd == if k == Key::Char('q') || k == Key::Enter || k == Key::Esc {
            Command::Quit
        } else {
            Command::Stay
        },
    }
}

/// What to upload next of an occasion, in turn.
pub fn cycle_upload(up: UploadMode, any_rated: bool) -> (r: UploadMode)
    ensures
        r == next_mode(up, any_rated),
{
    match up {
        UploadMode::No => UploadMode::All,
        UploadMode::All => UploadMode::Photos,
        UploadMode::Photos => if any_rated {
            UploadMode::Rated
        } else {
            UploadMode::No
        },
        UploadMode::Rated => UploadMode::No,
    }
}

impl App {
    /// The state at the start.
    pub fn new(pictures: String, dest: String, clusters: Vec<Cluster>, library: bool) -> (a: App)
        ensures
            a.pictures == pictures,
            a.dest == dest,
            a.clusters == clusters,
            a.selected == Some(0usize),
            a.mode == Mode::Browse,
            a.edit_buf@.len() == 0,
            a.do_move,
            a.library == library,
            a.min_rating == 1,
            a.log@.len() == 0,
            a.notice is None,
            a.status@.len() == 0,
            !a.drive_applied,
            sound(a),
    {
        App {
            pictures,
            dest,
            clusters,
            selected: Some(0),
            mode: Mode::Browse,
            edit_buf: String::new(),
            do_move: true,
            library,
            min_rating: 1,
            log: Vec::new(),
            notice: None,
            status: String::new(),
            drive_applied: false,
        }
    }

    /// The place of the selected occasion.
    pub fn sel(&self) -> (i: usize)
        ensures
            i == sel(*self),
    {
        match self.selected {
            Some(i) => i,
            None => 0,
        }
    }

    /// How many occasions are to be worked on.
    pub fn assigned_count(&self) -> (n: usize)
        ensures
            n == self.clusters@.filter(|c: Cluster| assigned(c)).len(),
    {
        assigned_count(&self.clusters)
    }

    /// How many occasions are to be uploaded.
    pub fn upload_count(&self) -> (n: usize)
        ensures
            n == self.clusters@.filter(|c: Cluster| marked(c)).len(),
    {
        upload_count(&self.clusters)
    }

    /// Takes the selection as the list of occasions left it: within the occasions.
    pub fn select(&mut self, selected: Option<usize>)
        requires
            sound(*old(self)),
        ensures
            *final(self) == (App {
                selected: match selected {
                    Some(i) => if i < old(self).clusters@.len() {
                        Some(i)
                    } else {
                        old(self).selected
                    },
                    None => None,
                },
                ..*old(self)
            }),
            sound(*final(self)),
    {
        match selected {
            Some(i) => {
                if i < self.clusters.len() {
                    self.selected = Some(i);
                }
            },
            None => {
                self.selected = None;
            },
        }
    }

    /// A key over the occasions.
    fn browse_key(&mut self, k: Key, ctrl: bool) -> (cmd: Command)
        requires
            sound(*old(self)),
        ensures
            browsed(*old(self), k, ctrl, *final(self), cmd),
            sound(*final(self)),
    {
        match k {
            Key::Char('q') => Command::Quit,
            Key::Char('c') => if ctrl {
                Command::Quit
            } else {
                Command::Stay
            },
            Key::Down | Key::Char('j') => {
                let n: usize = self.clusters.len();
                let i: usize = self.sel();
                let next: usize = if n == 0 {
                    0
                } else if i < n - 1 {
                    i + 1
                } else {
                    n - 1
                };
                self.selected = Some(next);
                Command::Stay
            },
            Key::Up | Key::Char('k') => {
                let i: usize = self.sel();
                self.selected = Some(
                    if i > 0 {
                        i - 1
                    } else {
                        0
                    },
                );
                Command::Stay
            },
            Key::Char('e') | Key::Char('r') => {
                let i: usize = self.sel();
                if i < self.clusters.len() {
                    self.edit_buf = self.clusters[i].target.clone();
                    self.mode = Mode::Edit;
                }
                Command::Stay
            },
            Key::Char('v') | Key::Enter => Command::Review { only_rated: false },
            Key::Char('f') => Command::Review { only_rated: true },
            Key::Char('m') => Command::Movies,
            Key::Char('w') => Command::Wcut,
            Key::Char('C') => Command::CheckDrive,
            Key::Char('R') => Command::ViewRemoved,
            Key::Char('T') => Command::Trash,
            Key::Char('u') => {
                let i: usize = self.sel();
                if i < self.clusters.len() {
                    let any: bool = self.clusters[i].rated_count(self.min_rating) > 0;
                    let up = cycle_upload(self.clusters[i].up, any);
                    self.clusters[i].up = up;
                }
                Command::Stay
            },
            Key::Char('[') => {
                if self.min_rating > 1 {
                    self.min_rating = self.min_rating - 1;
                }
                Command::Stay
            },
            Key::Char(']') => {
                if self.min_rating < 5 {
                    self.min_rating = self.min_rating + 1;
                }
                Command::Stay
            },
            Key::Char('1') => {
                self.min_rating = 1;
                Command::Stay
            },
            Key::Char('2') => {
                self.min_rating = 2;
                Command::Stay
            },
            Key::Char('3') => {
                self.min_rating = 3;
                Command::Stay
            },
            Key::Char('4') => {
                self.min_rating = 4;
                Command::Stay
            },
            Key::Char('5') => {
                self.min_rating = 5;
                Command::Stay
            },
            Key::Char('s') | Key::Char('S') => Command::Starred,
            Key::Char('d') => {
                if !self.library {
                    let i: usize = self.sel();
                    if i < self.clusters.len() {
                        let skip: bool = !self.clusters[i].skip;
                        self.clusters[i].skip = skip;
                    }
                }
                Command::Stay
            },
            Key::Char('a') => {
                if !self.library {
                    self.do_move = !self.do_move;
                }
                Command::Stay
            },
            Key::Char('x') => {
                let ready: bool = if self.library {
                    self.upload_count() > 0
                } else {
                    self.assigned_count() > 0
                };
                if ready {
                    self.mode = Mode::Confirm;
                }
                Command::Stay
            },
            _ => Command::Stay,
        }
    }

    /// A key while a name is edited.
    fn edit_key(&mut self, k: Key) -> (cmd: Command)
        requires
            sound(*old(self)),
        ensures
            edited(*old(self), k, *final(self), cmd),
            sound(*final(self)),
    {
        match k {
            Key::Esc => {
                self.mode = Mode::Browse;
                Command::Stay
            },
            Key::Enter => {
                let i: usize = self.sel();
                self.mode = Mode::Browse;
                if self.library {
                    return Command::Rename;
                }
                if i < self.clusters.len() {
                    let name = self.edit_buf.clone();
                    self.clusters[i].target = name;
                    self.clusters[i].suggested = false;
                    self.clusters[i].skip = false;
                    assert(self.clusters@ =~= old(self).clusters@.update(
                        i as int,
                        Cluster {
                            target: old(self).edit_buf,
                            suggested: false,
                            skip: false,
                            ..old(self).clusters@[i as int]
                        },
                    ));
                }
                Command::Stay
            },
            Key::Backspace => {
                let _ = self.edit_buf.pop();
                Command::Stay
            },
            Key::Char(ch) => {
                self.edit_buf.push(ch);
                Command::Stay
            },
            _ => Command::Stay,
        }
    }

    /// Takes note of a key, and says what is to be done; `ctrl` says whether Control is held.
    pub fn on_key(&mut self, k: Key, ctrl: bool) -> (cmd: Command)
        requires
            sound(*old(self)),
        ensures
            pressed(*old(self), k, ctrl, *final(self), cmd),
            sound(*final(self)),
    {
        match self.mode {
            Mode::Browse => self.browse_key(k, ctrl),
            Mode::Edit => self.edit_key(k),
            Mode::Confirm => match k {
                Key::Char('y') => Command::Execute,
                Key::Char('n') | Key::Esc => {
                    self.mode = Mode::Browse;
                    Command::Stay
                },
                _ => Command::Stay,
            },
            Mode::Running => Command::Stay,
            Mode::Done => match k {
                Key::Char('q') | Key::Enter | Key::Esc => Command::Quit,
                _ => Command::Stay,
            },
        }
    }
}

/// What is shown while the viewer is started.
pub open spec fn review_notice(only_rated: bool, min: u8) -> Seq<char> {
    "Generating "@ + (if only_rated {
        "shots rated ≥"@ + dec(min as nat)
    } else {
        "previews"@
    })
        + " and launching imv…\nIn imv: 1-5 = rate (0 clears) · Delete = cull · u = undo last cull · arrows = navigate · q = back."@
}

/// Whether `b` is `a` with the notice `n`.
pub open spec fn with_notice(a: App, b: App, n: Seq<char>) -> bool {
    &&& b == (App { notice: b.notice, ..a })
    &&& b.notice is Some
    &&& b.notice->0@ == n
}

/// Whether `b` is `a` with the status `s`.
pub open spec fn with_status(a: App, b: App, s: Seq<char>) -> bool {
    b == (App { status: b.status, ..a }) && b.status@ == s
}

/// The movies of the selected occasion, sorted.
pub open spec fn selected_movies(a: App) -> Seq<String> {
    if has_selected(a) {
        sorted(movie_paths(selected(a).files@))
    } else {
        seq![]
    }
}

/// What the name of a folder is changed to.
pub open spec fn new_name(a: App) -> Seq<char> {
    trim(a.edit_buf@)
}

/// What the name of the folder was.
pub open spec fn old_name(a: App) -> Seq<char> {
    if has_selected(a) {
        selected(a).target@
    } else {
        seq![]
    }
}

/// Whether there is anything to rename.
pub open spec fn renames(a: App) -> bool {
    new_name(a).len() > 0 && new_name(a) != old_name(a)
}

/// How the renaming of a folder went.
#[derive(Clone, Copy, PartialEq, Eq, Structural, Debug)]
pub enum Renaming {
    /// There is something of the new name already.
    Taken,
    /// It did not work.
    Failed,
    /// It worked.
    Renamed,
}

/// The path of a file once its folder is at `dir`.
pub open spec fn repointed(path: Seq<char>, dir: Seq<char>) -> Seq<char> {
    match file_name_of(path) {
        Some(n) => joined(dir, n),
        None => path,
    }
}

/// Whether `d` is the occasion `c` once its folder has the name `name` and is at `dir`: that is
/// where its files live now.
pub open spec fn moved_to(c: Cluster, d: Cluster, name: Seq<char>, dir: Seq<char>) -> bool {
    &&& d == (Cluster { files: d.files, target: d.target, dir: d.dir, ..c })
    &&& d.target@ == name
    &&& d.dir@ == dir
    &&& d.files@.len() == c.files@.len()
    &&& forall|i: int|
        0 <= i < c.files@.len() ==> {
            &&& #[trigger] d.files@[i] == (FileItem { path: d.files@[i].path, ..c.files@[i] })
            &&& d.files@[i].path@ == repointed(c.files@[i].path@, dir)
        }
}

/// Points the files of an occasion to the folder `dir`.
fn repoint(files: &mut Vec<FileItem>, dir: &str)
    ensures
        final(files)@.len() == old(files)@.len(),
        forall|i: int|
            0 <= i < old(files)@.len() ==> {
                &&& #[trigger] final(files)@[i] == (FileItem {
                    path: final(files)@[i].path,
                    ..old(files)@[i]
                })
                &&& final(files)@[i].path@ == repointed(old(files)@[i].path@, dir@)
            },
{
    let ghost was = files@;
    let mut i: usize = 0;
    while i < files.len()
        invariant
            i <= files.len(),
            files@.len() == was.len(),
            forall|k: int|
                0 <= k < i ==> {
                    &&& #[trigger] files@[k] == (FileItem { path: files@[k].path, ..was[k] })
                    &&& files@[k].path@ == repointed(was[k].path@, dir@)
                },
            forall|k: int| i <= k < was.len() ==> #[trigger] files@[k] == was[k],
        decreases files.len() - i,
    {
        match file_name(files[i].path.as_str()) {
            Some(n) => {
                let p = join_path(dir, n.as_str());
                files[i].path = p;
            },
            None => {},
        }
        i += 1;
    }
}

impl App {
    /// Shows that the viewer is being started.
    pub fn begin_review(&mut self, only_rated: bool)
        ensures
            with_notice(
                *old(self),
                *final(self),
                review_notice(only_rated, old(self).min_rating),
            ),
    {
        let mut n = copy_of("Generating ");
        if only_rated {
            let mut w = copy_of("shots rated ≥");
            w.append(decimal(self.min_rating as u64).as_str());
            n.append(w.as_str());
        } else {
            n.append("previews");
        }
        n.append(
            " and launching imv…\nIn imv: 1-5 = rate (0 clears) · Delete = cull · u = undo last cull · arrows = navigate · q = back.",
        );
        self.notice = Some(n);
    }

    /// Shows that the viewer is being started on the shots with any rating.
    pub fn begin_starred(&mut self)
        ensures
            with_notice(
                *old(self),
                *final(self),
                "Generating starred shots (rated 1-5) and launching imv…\nIn imv: 1-5 = rate (0 clears) · Delete = cull · u = undo last cull · arrows · q = back."@,
            ),
    {
        self.notice = Some(
            copy_of(
                "Generating starred shots (rated 1-5) and launching imv…\nIn imv: 1-5 = rate (0 clears) · Delete = cull · u = undo last cull · arrows · q = back.",
            ),
        );
    }

    /// Shows that the removed shots are being opened, where there is a folder of them.
    pub fn begin_view_removed(&mut self, there: bool) -> (go: bool)
        ensures
            go == (there && has_selected(*old(self))),
            if there && has_selected(*old(self)) {
                with_notice(
                    *old(self),
                    *final(self),
                    "Opening removed shots in imv…\nEnter = restore current shot · q = close."@,
                )
            } else {
                with_status(*old(self), *final(self), "Nothing removed for this occasion."@)
            },
    {
        if !there || self.sel() >= self.clusters.len() {
            self.status = copy_of("Nothing removed for this occasion.");
            return false;
        }
        self.notice = Some(
            copy_of("Opening removed shots in imv…\nEnter = restore current shot · q = close."),
        );
        true
    }

    /// Ends what a notice was shown for, and tells what it came to.
    pub fn conclude(&mut self, status: String)
        ensures
            *final(self) == (App { notice: None, status, ..*old(self) }),
    {
        self.notice = None;
        self.status = status;
    }

    /// The movies to play, where there are any.
    pub fn begin_movies(&mut self) -> (r: Option<Vec<String>>)
        ensures
            ({
                let m = selected_movies(*old(self));
                match r {
                    Some(v) => {
                        &&& m.len() > 0
                        &&& v@ == m
                        &&& with_notice(
                            *old(self),
                            *final(self),
                            "Playing "@ + dec(m.len())
                                + " movie(s) in mpv…  (< > = prev/next clip · q = back)"@,
                        )
                    },
                    None => m.len() == 0 && with_status(
                        *old(self),
                        *final(self),
                        "No movies in this occasion."@,
                    ),
                }
            }),
    {
        let i: usize = self.sel();
        let v: Vec<String> = if i < self.clusters.len() {
            self.clusters[i].movies()
        } else {
            Vec::new()
        };
        assert(v@ =~= selected_movies(*self));
        if v.len() == 0 {
            self.status = copy_of("No movies in this occasion.");
            return None;
        }
        let mut n = copy_of("Playing ");
        n.append(decimal(v.len() as u64).as_str());
        n.append(" movie(s) in mpv…  (< > = prev/next clip · q = back)");
        self.notice = Some(n);
        Some(v)
    }

    /// Tells that so many movies were played.
    pub fn end_movies(&mut self, n: usize)
        ensures
            *final(self) == (App { notice: None, status: final(self).status, ..*old(self) }),
            final(self).status@ == "Viewed "@ + dec(n as nat) + " movie(s)."@,
    {
        let mut s = copy_of("Viewed ");
        s.append(decimal(n as u64).as_str());
        s.append(" movie(s).");
        self.conclude(s);
    }

    /// The folder to cut movies in, where the selected occasion has any.
    pub fn begin_wcut(&mut self) -> (r: Option<String>)
        ensures
            match r {
                Some(d) => {
                    &&& has_selected(*old(self))
                    &&& selected_movies(*old(self)).len() > 0
                    &&& d == selected(*old(self)).dir
                    &&& *final(self) == *old(self)
                },
                None => if has_selected(*old(self)) {
                    selected_movies(*old(self)).len() == 0 && with_status(
                        *old(self),
                        *final(self),
                        "No movies to cut in this occasion."@,
                    )
                } else {
                    *final(self) == *old(self)
                },
            },
    {
        let i: usize = self.sel();
        if i >= self.clusters.len() {
            return None;
        }
        if self.clusters[i].movies().len() == 0 {
            self.status = copy_of("No movies to cut in this occasion.");
            return None;
        }
        Some(self.clusters[i].dir.clone())
    }

    /// Tells how cutting movies in `dir` went: why it could not be started, where it could not.
    pub fn end_wcut(&mut self, dir: &str, err: Option<&str>)
        ensures
            with_status(
                *old(self),
                *final(self),
                match err {
                    None => "wcut finished in "@ + dir@,
                    Some(e) => "Failed to launch wcut: "@ + e@,
                },
            ),
    {
        match err {
            None => {
                let mut s = copy_of("wcut finished in ");
                s.append(dir);
                self.status = s;
            },
            Some(e) => {
                let mut s = copy_of("Failed to launch wcut: ");
                s.append(e);
                self.status = s;
            },
        }
    }

    /// Shows that the Drive is being looked at.
    pub fn begin_check(&mut self)
        ensures
            with_notice(*old(self), *final(self), "Checking "@ + old(self).dest@ + " on Drive…"@),
    {
        let mut n = copy_of("Checking ");
        n.append(self.dest.as_str());
        n.append(" on Drive…");
        self.notice = Some(n);
    }

    /// Notes what is on the Drive, and tells it.
    pub fn end_check(&mut self, listing: Result<TextMap<()>, String>)
        ensures
            *final(self) == (App {
                clusters: final(self).clusters,
                notice: None,
                status: final(self).status,
                ..*old(self)
            }),
            match listing {
                Ok(m) => {
                    &&& final(self).clusters@ == old(self).clusters@.map_values(
                        |c: Cluster| checked(c, m@.dom()),
                    )
                    &&& final(self).status@ == check_text(
                        Ok(old(self).clusters@.filter(|c: Cluster| present(c, m@.dom())).len()),
                        old(self).clusters@.len(),
                        old(self).dest@,
                    )
                },
                Err(e) => {
                    &&& final(self).clusters@ == old(self).clusters@
                    &&& final(self).status@ == check_text(
                        Err(e@),
                        old(self).clusters@.len(),
                        old(self).dest@,
                    )
                },
            },
            sound(*old(self)) ==> sound(*final(self)),
    {
        let s = check_drive(&mut self.clusters, listing, self.dest.as_str());
        self.conclude(s);
    }

    /// Notes the answer of the first look at the Drive; where it failed nothing is known.
    pub fn drive_checked(&mut self, listing: &Result<TextMap<()>, String>)
        ensures
            *final(self) == (App {
                clusters: final(self).clusters,
                drive_applied: true,
                ..*old(self)
            }),
            match *listing {
                Ok(m) => final(self).clusters@ == old(self).clusters@.map_values(
                    |c: Cluster| checked(c, m@.dom()),
                ),
                Err(_) => final(self).clusters@ == old(self).clusters@,
            },
            sound(*old(self)) ==> sound(*final(self)),
    {
        self.drive_applied = true;
        match listing {
            Ok(m) => {
                let _ = apply_drive_listing(&mut self.clusters, m);
            },
            Err(_) => {},
        }
    }

    /// Notes that the work is over, and what it came to.
    pub fn finished(&mut self, log: Vec<String>)
        ensures
            *final(self) == (App { log, mode: Mode::Done, ..*old(self) }),
    {
        self.log = log;
        self.mode = Mode::Done;
    }

    /// For how many milliseconds a key is waited for: less while there is work to show.
    pub fn poll_millis(&self) -> (n: u64)
        ensures
            n == if self.mode == Mode::Running {
                80u64
            } else {
                200u64
            },
    {
        if self.mode == Mode::Running {
            80
        } else {
            200
        }
    }

    /// Starts the work on the occasions; none where it cannot be counted or a file has no name.
    pub fn start_execute(&mut self) -> (r: Option<Worker>)
        ensures
            *final(self) == (App { mode: Mode::Running, ..*old(self) }),
            ({
                let jobs = plan(
                    old(self).clusters@,
                    old(self).pictures@,
                    old(self).library,
                    old(self).min_rating,
                );
                match r {
                    Some(w) => {
                        &&& feasible(jobs)
                        &&& w@ == begun(jobs, old(self).do_move, old(self).dest@)
                        &&& wf(w@)
                    },
                    None => !feasible(jobs),
                }
            }),
    {
        let jobs = jobs_for(
            &self.clusters,
            self.pictures.as_str(),
            self.library,
            self.min_rating,
        );
        self.mode = Mode::Running;
        Worker::new(jobs, self.do_move, self.dest.clone())
    }

    /// The folder of the selected occasion and where it is to go, where it is to be renamed; a
    /// name with a slash is refused.
    pub fn rename_folder(&mut self) -> (r: Option<(String, String)>)
        ensures
            match r {
                Some((from, to)) => {
                    &&& renames(*old(self))
                    &&& !new_name(*old(self)).contains('/')
                    &&& from@ == joined(old(self).pictures@, old_name(*old(self)))
                    &&& to@ == joined(old(self).pictures@, new_name(*old(self)))
                    &&& *final(self) == *old(self)
                },
                None => if renames(*old(self)) {
                    new_name(*old(self)).contains('/') && with_status(
                        *old(self),
                        *final(self),
                        "rename: name can't contain '/'"@,
                    )
                } else {
                    *final(self) == *old(self)
                },
            },
    {
        let name = trim_str(self.edit_buf.as_str());
        let i: usize = self.sel();
        let was = if i < self.clusters.len() {
            self.clusters[i].target.clone()
        } else {
            String::new()
        };
        assert(was@ =~= old_name(*self));
        if name.as_str().is_empty() || same(name.as_str(), was.as_str()) {
            return None;
        }
        if contains_char(name.as_str(), '/') {
            self.status = copy_of("rename: name can't contain '/'");
            return None;
        }
        Some(
            (
                join_path(self.pictures.as_str(), was.as_str()),
                join_path(self.pictures.as_str(), name.as_str()),
            ),
        )
    }

    /// Notes how the renaming of the folder of the selected occasion went.
    pub fn end_rename(&mut self, how: Renaming)
        ensures
            match how {
                Renaming::Taken => with_status(
                    *old(self),
                    *final(self),
                    "rename skipped: '"@ + new_name(*old(self)) + "' already exists"@,
                ),
                Renaming::Failed => with_status(*old(self), *final(self), "rename failed"@),
                Renaming::Renamed => {
                    &&& *final(self) == (App {
                        clusters: final(self).clusters,
                        status: final(self).status,
                        ..*old(self)
                    })
                    &&& final(self).status@ == "renamed → "@ + new_name(*old(self))
                    &&& final(self).clusters@.len() == old(self).clusters@.len()
                    &&& forall|i: int|
                        0 <= i < old(self).clusters@.len() ==> if i == sel(*old(self)) {
                            moved_to(
                                old(self).clusters@[i],
                                #[trigger] final(self).clusters@[i],
                                new_name(*old(self)),
                                joined(old(self).pictures@, new_name(*old(self))),
                            )
                        } else {
                            final(self).clusters@[i] == old(self).clusters@[i]
                        }
                },
            },
            sound(*old(self)) ==> sound(*final(self)),
    {
        let name = trim_str(self.edit_buf.as_str());
        match how {
            Renaming::Taken => {
                let mut s = copy_of("rename skipped: '");
                s.append(name.as_str());
                s.append("' already exists");
                self.status = s;
            },
            Renaming::Failed => {
                self.status = copy_of("rename failed");
            },
            Renaming::Renamed => {
                let i: usize = self.sel();
                let dir = join_path(self.pictures.as_str(), name.as_str());
                let mut s = copy_of("renamed → ");
                s.append(name.as_str());
                if i < self.clusters.len() {
                    let mut files: Vec<FileItem> = Vec::new();
                    std::mem::swap(&mut files, &mut self.clusters[i].files);
                    repoint(&mut files, dir.as_str());
                    self.clusters[i].files = files;
                    self.clusters[i].target = name;
                    self.clusters[i].dir = dir;
                }
                self.status = s;
            },
        }
    }
}

/// Pressing `u` four times, or three where no shot reaches the bar, comes back to where it was.
pub proof fn lemma_upload_cycle(up: UploadMode)
    ensures
        next_mode(next_mode(next_mode(next_mode(up, true), true), true), true) == up,
        up != UploadMode::Rated ==> next_mode(
            next_mode(next_mode(up, false), false),
            false,
        ) == up,
{
}

/// While the work runs no key does anything, and only a confirmed key starts it.
pub proof fn lemma_work_needs_confirmation(a: App, k: Key, ctrl: bool, b: App, cmd: Command)
    requires
        pressed(a, k, ctrl, b, cmd),
    ensures
        cmd == Command::Execute <==> a.mode == Mode::Confirm && k == Key::Char('y'),
        a.mode == Mode::Running ==> b == a && cmd == Command::Stay,
        b.mode == Mode::Confirm && a.mode != Mode::Confirm ==> ready(a),
{
}

/// In the library no key changes which occasions are left alone, whether files are moved, or
/// the name of an occasion.
pub proof fn lemma_library_keys(a: App, k: Key, ctrl: bool, b: App, cmd: Command, i: int)
    requires
        pressed(a, k, ctrl, b, cmd),
        a.library,
        sound(a),
        0 <= i < a.clusters@.len(),
    ensures
        b.do_move == a.do_move,
        b.clusters@.len() == a.clusters@.len(),
        b.clusters@[i].skip == a.clusters@[i].skip,
        b.clusters@[i].target == a.clusters@[i].target,
        b.clusters@[i].files == a.clusters@[i].files,
{
}

/// A key changes nothing of the occasions that are not selected, of the selected one at most its
/// name, whether it is left alone, and what is uploaded of it, and of the program neither what
/// it works on nor what it has told.
pub proof fn lemma_keys_touch_selected(a: App, k: Key, ctrl: bool, b: App, cmd: Command, i: int)
    requires
        pressed(a, k, ctrl, b, cmd),
        0 <= i < a.clusters@.len(),
    ensures
        b.clusters@.len() == a.clusters@.len(),
        i != sel(a) ==> b.clusters@[i] == a.clusters@[i],
        b.clusters@[i].files == a.clusters@[i].files,
        b.clusters@[i].ratings == a.clusters@[i].ratings,
        b.clusters@[i].dir == a.clusters@[i].dir,
        b.clusters@[i].start == a.clusters@[i].start,
        b.clusters@[i].end == a.clusters@[i].end,
        b.clusters@[i].removed == a.clusters@[i].removed,
        b.clusters@[i].on_drive == a.clusters@[i].on_drive,
        b.pictures == a.pictures,
        b.dest == a.dest,
        b.library == a.library,
        b.log == a.log,
        b.notice == a.notice,
        b.status == a.status,
        b.drive_applied == a.drive_applied,
{
}

/// The selection goes to the next occasion and back again, one at a time, and stays at the ends.
pub proof fn lemma_selection_moves(a: App, ctrl: bool, b: App, c: App, x: Command, y: Command)
    requires
        a.mode == Mode::Browse,
        sound(a),
        a.clusters@.len() > 0,
        pressed(a, Key::Down, ctrl, b, x),
        pressed(b, Key::Up, ctrl, c, y),
    ensures
        sel(a) + 1 < a.clusters@.len() ==> sel(b) == sel(a) + 1 && sel(c) == sel(a),
        sel(a) + 1 == a.clusters@.len() ==> sel(b) == sel(a),
        sel(b) == 0 ==> sel(c) == 0,
        sel(b) > 0 ==> sel(c) == sel(b) - 1,
        c.clusters == a.clusters,
        c.mode == Mode::Browse,
{
    assert(a.clusters.len() == a.clusters@.len());
}

/// What is typed goes behind the name that is edited, and taking it back leaves the name as it
/// was; nothing else changes.
pub proof fn lemma_typed_and_taken_back(a: App, ch: char, b: App, c: App, x: Command, y: Command)
    requires
        a.mode == Mode::Edit,
        pressed(a, Key::Char(ch), false, b, x),
        pressed(b, Key::Backspace, false, c, y),
    ensures
        b.edit_buf@ == a.edit_buf@ + seq![ch],
        c.edit_buf@ == a.edit_buf@,
        c.clusters == a.clusters,
        c.selected == a.selected,
        c.mode == Mode::Edit,
{
    assert(a.edit_buf@.push(ch) == a.edit_buf@ + seq![ch]);
    assert(a.edit_buf@.push(ch).drop_last() == a.edit_buf@);
}

/// A new name that is entered for an occasion of a card is its name, also where it was left
/// alone before; one that is given up changes nothing of the occasions.
pub proof fn lemma_name_entered(a: App, b: App, cmd: Command)
    requires
        a.mode == Mode::Edit,
        has_selected(a),
    ensures
        !a.library && pressed(a, Key::Enter, false, b, cmd) ==> {
            &&& b.clusters@[sel(a)].target == a.edit_buf
            &&& !b.clusters@[sel(a)].skip
            &&& !b.clusters@[sel(a)].suggested
            &&& b.clusters@[sel(a)].up == a.clusters@[sel(a)].up
            &&& b.mode == Mode::Browse
        },
        pressed(a, Key::Esc, false, b, cmd) ==> b.clusters == a.clusters && b.mode == Mode::Browse,
        a.library && pressed(a, Key::Enter, false, b, cmd) ==> b.clusters == a.clusters && cmd
            == Command::Rename,
{
}

/// An occasion of a card that is left alone and then not is as it was before, and in between
/// just that has changed.
pub proof fn lemma_left_alone_and_back(a: App, b: App, c: App, x: Command, y: Command)
    requires
        a.mode == Mode::Browse,
        !a.library,
        has_selected(a),
        pressed(a, Key::Char('d'), false, b, x),
        pressed(b, Key::Char('d'), false, c, y),
    ensures
        b.clusters@[sel(a)] == (Cluster {
            skip: !a.clusters@[sel(a)].skip,
            ..a.clusters@[sel(a)]
        }),
        c.clusters@ == a.clusters@,
{
    assert(c.clusters@ =~= a.clusters@);
}

/// The bar goes up and down by one between 1 and 5, and a number sets it.
pub proof fn lemma_bar_moves(a: App, k: Key, b: App, cmd: Command)
    requires
        a.mode == Mode::Browse,
        sound(a),
        pressed(a, k, false, b, cmd),
    ensures
        k == Key::Char(']') ==> b.min_rating == if a.min_rating == 5 {
            5
        } else {
            a.min_rating + 1
        },
        k == Key::Char('[') ==> b.min_rating == if a.min_rating == 1 {
            1
        } else {
            a.min_rating - 1
        },
        match k {
            Key::Char(c) => '1' <= c <= '5' ==> b.min_rating == c as u32 - 48,
            _ => b.min_rating == a.min_rating,
        },
        sound(b),
{
}

/// The program asks whether to go on just where there is something to do: an occasion with a
/// name that is not left alone, and in the library one of these that is to be uploaded.
pub proof fn lemma_asks_where_work_is(a: App, b: App, cmd: Command)
    requires
        a.mode == Mode::Browse,
        pressed(a, Key::Char('x'), false, b, cmd),
    ensures
        b.mode == Mode::Confirm <==> exists|i: int|
            {
                &&& 0 <= i < a.clusters@.len()
                &&& !(#[trigger] a.clusters@[i]).skip
                &&& is_named(a.clusters@[i].target@)
                &&& a.library ==> a.clusters@[i].up != UploadMode::No
            },
        b.clusters == a.clusters,
{
    let keep = if a.library {
        |c: Cluster| marked(c)
    } else {
        |c: Cluster| assigned(c)
    };
    let all = a.clusters@;
    let l = all.filter(keep);
    if l.len() > 0 {
        assert(l.contains(l[0]));
        all.lemma_filter_contains_rev(keep, l[0]);
        all.lemma_filter_pred(keep, 0);
        let i = choose|i: int| 0 <= i < all.len() && all[i] == l[0];
        assert(keep(all[i]));
        assert(!all[i].skip);
    }
    if exists|i: int|
        {
            &&& 0 <= i < all.len()
            &&& !(#[trigger] all[i]).skip
            &&& is_named(all[i].target@)
            &&& a.library ==> all[i].up != UploadMode::No
        } {
        let i = choose|i: int|
            {
                &&& 0 <= i < all.len()
                &&& !(#[trigger] all[i]).skip
                &&& is_named(all[i].target@)
                &&& a.library ==> all[i].up != UploadMode::No
            };
        assert(keep(all[i]));
        all.lemma_filter_contains(keep, i);
        assert(l.len() > 0);
    }
}

/// A renamed occasion of the library has its files in its new folder, under their own names.
pub proof fn lemma_renamed_files(d: Seq<char>, n: Seq<char>, dir: Seq<char>)
    requires
        is_name(n),
    ensures
        repointed(joined(d, n), dir) == joined(dir, n),
{
    lemma_joined(d, n);
}

/// A folder of the library is renamed just where the new name, without white space at its ends,
/// says something and is not the old one.
pub proof fn lemma_rename_asked(a: App)
    requires
        has_selected(a),
    ensures
        all_space(a.edit_buf@) ==> !renames(a),
        a.edit_buf@ == selected(a).target@ && a.edit_buf@.len() > 0 && !is_space(a.edit_buf@[0])
            && !is_space(a.edit_buf@.last()) ==> !renames(a),
        a.edit_buf@ != selected(a).target@ && a.edit_buf@.len() > 0 && !is_space(a.edit_buf@[0])
            && !is_space(a.edit_buf@.last()) ==> renames(a) && new_name(a) == a.edit_buf@,
{
    let b = a.edit_buf@;
    let (x, y) = lemma_trimmed(b);
    if all_space(b) && trim(b).len() > 0 {
        assert(b[x.len() as int] == trim(b)[0]);
    }
    if b.len() > 0 && !is_space(b[0]) && !is_space(b.last()) {
        lemma_trim_tight(b);
    }
}

/// Behind the photos of an occasion, the key for uploads goes on to the rated ones just where a
/// shot reaches the bar; nothing else of the occasion changes.
pub proof fn lemma_upload_key(a: App, b: App, cmd: Command)
    requires
        a.mode == Mode::Browse,
        has_selected(a),
        pressed(a, Key::Char('u'), false, b, cmd),
    ensures
        ({
            let c = a.clusters@[sel(a)];
            let d = b.clusters@[sel(a)];
            &&& d == (Cluster { up: d.up, ..c })
            &&& d.up != c.up
            &&& c.up == UploadMode::No ==> d.up == UploadMode::All
            &&& d.up == UploadMode::Rated ==> c.up == UploadMode::Photos
            &&& c.up == UploadMode::Photos && rated_shots(c.ratings@, a.min_rating).finite() ==> (
            d.up == UploadMode::Rated <==> exists|s: Seq<char>|
                c.ratings@.contains_key(s) && #[trigger] c.ratings@[s] >= a.min_rating)
        }),
{
    let c = a.clusters@[sel(a)];
    let l = rated_shots(c.ratings@, a.min_rating);
    if l.finite() {
        if l.len() > 0 {
            let s = l.choose();
            assert(l.contains(s));
            assert(c.ratings@[s] >= a.min_rating);
        } else {
            assert(l =~= Set::<Seq<char>>::empty());
            assert forall|s: Seq<char>| c.ratings@.contains_key(s) implies !(
            #[trigger] c.ratings@[s] >= a.min_rating) by {
                assert(!l.contains(s));
            }
        }
    }
}

/// Whether files are moved or copied goes back and forth for a card.
pub proof fn lemma_action_key(a: App, b: App, c: App, x: Command, y: Command)
    requires
        a.mode == Mode::Browse,
        !a.library,
        pressed(a, Key::Char('a'), false, b, x),
        pressed(b, Key::Char('a'), false, c, y),
    ensures
        b.do_move != a.do_move,
        c == a,
{
}

/// The name that is edited begins as the name of the selected occasion, all of it.
pub proof fn lemma_edit_begins(a: App, k: Key, b: App, cmd: Command)
    requires
        a.mode == Mode::Browse,
        has_selected(a),
        k == Key::Char('e') || k == Key::Char('r'),
        pressed(a, k, false, b, cmd),
    ensures
        b.mode == Mode::Edit,
        b.edit_buf@ == a.clusters@[sel(a)].target@,
        b.clusters == a.clusters,
        b.selected == a.selected,
{
}

/// The notice of a review of rated shots names the bar.
pub proof fn lemma_notice_names_bar(min: u8)
    ensures
        has_text(review_notice(true, min), "≥"@ + dec(min as nat)),
{
    reveal_strlit("shots rated ≥");
    reveal_strlit("≥");
    let c = "shots rated ≥"@;
    let s = review_notice(true, min);
    let d = "Generating "@;
    let end = s.skip((d.len() + c.len() + dec(min as nat).len()) as int);
    assert(c == c.take(12) + "≥"@);
    lemma_text_within(d + c.take(12), "≥"@ + dec(min as nat), end, s);
}

/// A renamed occasion has its new name and folder; each of its files is there under its own
/// name, and is else what it was, as the occasion is.
pub proof fn lemma_moved_to(
    c: Cluster,
    d: Cluster,
    name: Seq<char>,
    dir: Seq<char>,
    i: int,
    from: Seq<char>,
    n: Seq<char>,
)
    requires
        moved_to(c, d, name, dir),
        0 <= i < c.files@.len(),
        is_name(n),
        c.files@[i].path@ == joined(from, n),
    ensures
        d.files@.len() == c.files@.len(),
        d.files@[i].path@ == joined(dir, n),
        d.files@[i].mtime == c.files@[i].mtime,
        d.files@[i].size == c.files@[i].size,
        d.files@[i].ext == c.files@[i].ext,
        d.target@ == name,
        d.dir@ == dir,
        d.ratings == c.ratings,
        d.removed == c.removed,
        d.up == c.up,
        d.skip == c.skip,
        d.start == c.start,
        d.end == c.end,
{
    lemma_joined(from, n);
    assert(d.files@[i] == (FileItem { path: d.files@[i].path, ..c.files@[i] }));
}

/// The movies that are played are just those of the selected occasion, each once.
pub proof fn lemma_plays_movies(a: App)
    ensures
        sel(a) < a.clusters@.len() ==> selected_movies(a).to_multiset() == movie_paths(
            a.clusters@[sel(a)].files@,
        ).to_multiset() && selected_movies(a).len() == movie_paths(
            a.clusters@[sel(a)].files@,
        ).len(),
        sel(a) >= a.clusters@.len() ==> selected_movies(a).len() == 0,
{
    if has_selected(a) {
        lemma_sorted(movie_paths(selected(a).files@));
    }
}

} // verus!
