//! What the tool is started with.

use vstd::prelude::*;

verus! {

/// The service that computes embeddings.
#[derive(Clone, Copy, PartialEq, Eq, Structural, Debug)]
pub enum EmbedMode {
    OpenClip,
    LlamaCpp,
    Ollama,
}

/// The files to work on.
#[derive(Clone)]
pub struct ImagePaths(pub Vec<String>);

/// What the file system says of a path.
pub enum PathKind {
    File,
    /// A directory, with the path of each entry that could be read and whether it is a
    /// file.
    Directory(Vec<(String, bool)>),
    /// A directory that could not be listed, and why.
    Unreadable(String),
    /// Neither a file nor a directory.
    Other,
}

/// Why a path stands for no files.
pub enum ImagePathsError {
    /// It is a directory that could not be listed, and why.
    Unreadable(String),
    /// It is neither a file nor a directory.
    NotFound(String),
}

impl ImagePathsError {
    /// What to say, where `shown` is the path as it is shown to the user.
    pub fn message(&self, shown: &str) -> (s: String)
        ensures
            s@ == (match *self {
                ImagePathsError::Unreadable(why) => why@,
                ImagePathsError::NotFound(_) => shown@ + " is not a valid file or directory"@,
            }),
    {
        match self {
            ImagePathsError::Unreadable(why) => why.clone(),
            ImagePathsError::NotFound(_) => {
                let mut s = String::new();
                s.push_str(shown);
                s.push_str(" is not a valid file or directory");
                assert(s@ =~= shown@ + " is not a valid file or directory"@);
                s
            },
        }
    }
}

/// The paths of those entries that are files.
pub open spec fn files_among(entries: Seq<(String, bool)>) -> Seq<String> {
    entries.filter(|e: (String, bool)| e.1).map_values(|e: (String, bool)| e.0)
}

impl ImagePaths {
    /// The files that a path stands for: itself, or the files of the directory.
    pub fn from_kind(path: &str, kind: PathKind) -> (r: Result<ImagePaths, ImagePathsError>)
        ensures
            match kind {
                PathKind::File => r is Ok && r->Ok_0.0@.len() == 1 && r->Ok_0.0@[0]@ == path@,
                PathKind::Directory(entries) => r is Ok && r->Ok_0.0@ == files_among(entries@),
                PathKind::Unreadable(why) => r == Err::<ImagePaths, ImagePathsError>(
                    ImagePathsError::Unreadable(why),
                ),
                PathKind::Other => r matches Err(ImagePathsError::NotFound(p)) && p@ == path@,
            },
            kind matches PathKind::Directory(entries) ==> r is Ok && r->Ok_0.0@ == entries@.filter(
                |e: (String, bool)| e.1,
            ).map_values(|e: (String, bool)| e.0),
    {
        match kind {
            PathKind::File => {
                let mut files: Vec<String> = Vec::new();
                files.push(path.to_owned());
                Ok(ImagePaths(files))
            },
            PathKind::Directory(entries) => {
                let mut files: Vec<String> = Vec::new();
                let mut i: usize = 0;
                let ghost is_file = |e: (String, bool)| e.1;
                let ghost path_of = |e: (String, bool)| e.0;
                assert(entries@.take(0).filter(is_file).map_values(path_of) =~= Seq::<String>::empty())
                    by {
                    reveal(Seq::filter);
                }
                while i < entries.len()
                    invariant
                        i <= entries@.len(),
                        is_file == (|e: (String, bool)| e.1),
                        path_of == (|e: (String, bool)| e.0),
                        files@ == entries@.take(i as int).filter(is_file).map_values(path_of),
                    decreases entries@.len() - i,
                {
                    assert(entries@.take(i + 1).drop_last() =~= entries@.take(i as int));
                    proof {
                        reveal(Seq::filter);
                    }
                    if entries[i].1 {
                        files.push(entries[i].0.clone());
                        assert(files@ =~= entries@.take(i + 1).filter(is_file).map_values(path_of));
                    }
                    i = i + 1;
                }
                assert(entries@.take(entries@.len() as int) =~= entries@);
                Ok(ImagePaths(files))
            },
            PathKind::Unreadable(why) => Err(ImagePathsError::Unreadable(why)),
            PathKind::Other => Err(ImagePathsError::NotFound(path.to_owned())),
        }
    }

    pub fn as_vec(&self) -> (paths: &Vec<String>)
        ensures
            paths@ == self.0@,
    {
        &self.0
    }

    pub fn into_vec(self) -> (paths: Vec<String>)
        ensures
            paths == self.0,
    {
        self.0
    }
}

/// The command line.
pub struct Args {
    /// How often the flag for more output was given.
    pub verbose: u8,
    pub db_path: String,
    pub images: ImagePaths,
}

/// How much is logged.
pub struct LogSettings {
    pub level: &'static str,
    pub thread_ids: bool,
    pub thread_names: bool,
}

/// The level that a count of the flag for more output asks for.
pub open spec fn level_of(verbose: u8) -> Seq<char> {
    if verbose == 0 {
        "warn"@
    } else if verbose == 1 {
        "info"@
    } else if verbose == 2 {
        "debug"@
    } else {
        "trace"@
    }
}

impl LogSettings {
    pub fn new(verbose: u8) -> (s: LogSettings)
        ensures
            s.level@ == level_of(verbose),
            verbose == 0 ==> s.level@ == "warn"@,
            verbose == 1 ==> s.level@ == "info"@,
            verbose == 2 ==> s.level@ == "debug"@,
            verbose > 2 ==> s.level@ == "trace"@,
            s.thread_ids == (verbose > 1),
            s.thread_names == (verbose > 2),
    {
        let level = if verbose == 0 {
            "warn"
        } else if verbose == 1 {
            "info"
        } else if verbose == 2 {
            "debug"
        } else {
            "trace"
        };
        LogSettings { level, thread_ids: verbose > 1, thread_names: verbose > 2 }
    }
}

/// The name of a package as its code is named: underscores for hyphens.
pub open spec fn crate_name(package: Seq<char>) -> Seq<char> {
    Seq::new(
        package.len(),
        |i: int|
            if package[i] == '-' {
                '_'
            } else {
                package[i]
            },
    )
}

/// The directive that sets the level for a package.
pub fn log_directive(package: &str, verbose: u8) -> (s: String)
    ensures
        s@ == crate_name(package@).push('=') + level_of(verbose),
        s@.len() > package@.len(),
        s@[package@.len() as int] == '=',
        forall|i: int|
            0 <= i < package@.len() ==> #[trigger] s@[i] == (if package@[i] == '-' {
                '_'
            } else {
                package@[i]
            }),
        s@.skip(package@.len() as int + 1) == (if verbose == 0 {
            "warn"@
        } else if verbose == 1 {
            "info"@
        } else if verbose == 2 {
            "debug"@
        } else {
            "trace"@
        }),
{
    let mut s = String::new();
    for c in walk: package.chars()
        invariant
            walk.seq() == package@,
            s@ == crate_name(package@).take(walk.index() as int),
    {
        s.push(
            if c == '-' {
                '_'
            } else {
                c
            },
        );
        assert(s@ =~= crate_name(package@).take(walk.index() + 1));
    }
    assert(s@ =~= crate_name(package@));
    s.push('=');
    s.push_str(LogSettings::new(verbose).level);
    assert(s@.skip(package@.len() as int + 1) =~= level_of(verbose));
    s
}

} // verus!
