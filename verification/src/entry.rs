use vstd::prelude::*;

verus! {

/// One catalogued filesystem node: a file or a directory discovered by a scan.
///
/// Invariant of entries produced by a scan: `path` ends with `/` followed by
/// `name`, and `parent_folder` is the base name of the containing directory
/// (the sentinel `~` for a root with no base name).
pub struct IndexEntry {
    pub name: String,
    pub path: String,
    pub is_directory: bool,
    pub parent_folder: String,
}

/// The mathematical model of an `IndexEntry`: its fields as plain sequences.
pub ghost struct EntryView {
    pub name: Seq<char>,
    pub path: Seq<char>,
    pub is_directory: bool,
    pub parent_folder: Seq<char>,
}

impl View for IndexEntry {
    type V = EntryView;

    open spec fn view(&self) -> EntryView {
        EntryView {
            name: self.name@,
            path: self.path@,
            is_directory: self.is_directory,
            parent_folder: self.parent_folder@,
        }
    }
}

/// The models of a sequence of entries, element by element.
pub open spec fn views_of(s: Seq<IndexEntry>) -> Seq<EntryView> {
    s.map_values(|e: IndexEntry| e@)
}

impl Clone for IndexEntry {
    fn clone(&self) -> (res: Self)
        ensures
            res@ == self@,
    {
        IndexEntry {
            name: self.name.clone(),
            path: self.path.clone(),
            is_directory: self.is_directory,
            parent_folder: self.parent_folder.clone(),
        }
    }
}

/// One node of a single-level directory listing, as shown during manual
/// navigation: like an `IndexEntry` but without the parent-folder field.
pub struct FileEntry {
    pub name: String,
    pub path: String,
    pub is_directory: bool,
}

impl Clone for FileEntry {
    fn clone(&self) -> (res: Self)
        ensures
            res.name@ == self.name@,
            res.path@ == self.path@,
            res.is_directory == self.is_directory,
    {
        FileEntry { name: self.name.clone(), path: self.path.clone(), is_directory: self.is_directory }
    }
}

/// The status of a scan: advisory counters published while a traversal runs.
pub struct IndexProgress {
    pub total_folders: usize,
    pub indexed_folders: usize,
    pub total_files: usize,
    pub current_folder: String,
    pub is_complete: bool,
}

impl IndexProgress {
    /// Field-by-field agreement of two progress records.
    pub open spec fn agrees_with(&self, other: &IndexProgress) -> bool {
        &&& self.total_folders == other.total_folders
        &&& self.indexed_folders == other.indexed_folders
        &&& self.total_files == other.total_files
        &&& self.current_folder@ == other.current_folder@
        &&& self.is_complete == other.is_complete
    }

    /// The zeroed record returned before any scan has ever run.
    pub open spec fn is_zeroed(&self) -> bool {
        &&& self.total_folders == 0
        &&& self.indexed_folders == 0
        &&& self.total_files == 0
        &&& self.current_folder@ == Seq::<char>::empty()
        &&& !self.is_complete
    }
}

impl Clone for IndexProgress {
    fn clone(&self) -> (res: Self)
        ensures
            res.agrees_with(self),
    {
        IndexProgress {
            total_folders: self.total_folders,
            indexed_folders: self.indexed_folders,
            total_files: self.total_files,
            current_folder: self.current_folder.clone(),
            is_complete: self.is_complete,
        }
    }
}

impl Default for IndexProgress {
    fn default() -> (res: Self)
        ensures
            res.is_zeroed(),
    {
        IndexProgress {
            total_folders: 0,
            indexed_folders: 0,
            total_files: 0,
            current_folder: String::new(),
            is_complete: false,
        }
    }
}

/// One saved navigation tab of the launcher shell.
pub struct Tab {
    pub id: String,
    pub path: String,
    pub name: String,
    pub color: String,
}

impl Clone for Tab {
    fn clone(&self) -> (res: Self)
        ensures
            res.id@ == self.id@,
            res.path@ == self.path@,
            res.name@ == self.name@,
            res.color@ == self.color@,
    {
        Tab {
            id: self.id.clone(),
            path: self.path.clone(),
            name: self.name.clone(),
            color: self.color.clone(),
        }
    }
}

/// User preferences of the launcher shell. The indexing engine itself only
/// ever reads `root_folder`; the rest is carried for the shell.
pub struct Config {
    pub root_folder: Option<String>,
    pub global_hotkey: Option<String>,
    pub remember_location: bool,
    pub last_location: Option<String>,
    pub tabs: Option<Vec<Tab>>,
    pub active_tab_id: Option<String>,
}

impl Default for Config {
    /// The starting configuration; the caller that knows the home directory
    /// fills `root_folder` in afterwards.
    fn default() -> (res: Self)
        ensures
            res.root_folder is None,
            res.global_hotkey is None,
            res.remember_location,
            res.last_location is None,
            res.tabs is None,
            res.active_tab_id is None,
    {
        Config {
            root_folder: None,
            global_hotkey: None,
            remember_location: true,
            last_location: None,
            tabs: None,
            active_tab_id: None,
        }
    }
}

} // verus!
