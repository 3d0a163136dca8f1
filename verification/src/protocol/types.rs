//! The data that a transfer works on: file entries, file lists, block sums
//! and statistics.

use vstd::prelude::*;

use crate::text::{chars_of, string_of};

verus! {

// ---------------------------------------------------------------------------
// File types
// ---------------------------------------------------------------------------

/// The kinds of file that the protocol tells apart.
#[derive(Debug, Clone, Copy, PartialEq, Eq, Structural)]
pub enum FileType {
    Regular,
    Dir,
    Symlink,
    Device,
    Special,
}

/// The bits of a mode that say what kind of file it is, shifted down.
pub open spec fn mode_kind(mode: u32) -> int {
    (mode / 0x1000) as int % 16
}

/// The kind of file that a mode stands for.
pub open spec fn file_type_of(mode: u32) -> FileType {
    let k = mode_kind(mode);
    if k == 4 {
        FileType::Dir
    } else if k == 10 {
        FileType::Symlink
    } else if k == 6 || k == 2 {
        FileType::Device
    } else if k == 1 || k == 12 || k == 5 {
        FileType::Special
    } else {
        FileType::Regular
    }
}

impl Default for FileType {
    fn default() -> (t: FileType)
        ensures
            t == FileType::Regular,
    {
        FileType::Regular
    }
}

impl FileType {
    /// The kind of file that a POSIX mode stands for.
    pub fn from_mode(mode: u32) -> (t: FileType)
        ensures
            t == file_type_of(mode),
    {
        let k: u32 = mode / 0x1000 % 16;
        if k == 4 {
            FileType::Dir
        } else if k == 10 {
            FileType::Symlink
        } else if k == 6 || k == 2 {
            FileType::Device
        } else if k == 1 || k == 12 || k == 5 {
            FileType::Special
        } else {
            FileType::Regular
        }
    }

    pub fn is_dir(self) -> (b: bool)
        ensures
            b == (self == FileType::Dir),
    {
        matches!(self, FileType::Dir)
    }

    pub fn is_regular(self) -> (b: bool)
        ensures
            b == (self == FileType::Regular),
    {
        matches!(self, FileType::Regular)
    }

    pub fn is_symlink(self) -> (b: bool)
        ensures
            b == (self == FileType::Symlink),
    {
        matches!(self, FileType::Symlink)
    }
}

// ---------------------------------------------------------------------------
// File entries
// ---------------------------------------------------------------------------

/// Everything that a file list holds of one file.
#[derive(Debug)]
pub struct FileInfo {
    /// The last component of the path.
    pub name: String,
    /// The path of the directory it is in, where it is in one.
    pub dirname: Option<String>,
    /// Modification time in seconds since the epoch.
    pub modtime: i64,
    /// Nanoseconds beyond `modtime`.
    pub mod_nsec: u32,
    /// Size in bytes.
    pub size: i64,
    /// Type and permission bits.
    pub mode: u32,
    /// Local `FLAG_*` bits, never sent.
    pub flags: u16,
    pub uid: u32,
    pub gid: u32,
    /// Where a symbolic link points.
    pub link_target: Option<String>,
    pub rdev_major: u32,
    pub rdev_minor: u32,
    /// Index of the first file of a hard-link cluster, `-1` outside of one.
    pub hard_link_first_ndx: i32,
    /// The device that the file lives on.
    pub dev: u64,
    /// The inode of the file, zero where it is not known.
    pub ino: u64,
    /// The strong checksum of the contents, where it was computed.
    pub checksum: Option<Vec<u8>>,
}

/// The hard-link index of a file outside of any cluster.
pub const NO_HARD_LINK: i32 = -1;

/// The model of a file entry.
#[verifier::ext_equal]
pub struct FileEntry {
    pub name: Seq<char>,
    pub dirname: Option<Seq<char>>,
    pub modtime: i64,
    pub mod_nsec: u32,
    pub size: i64,
    pub mode: u32,
    pub flags: u16,
    pub uid: u32,
    pub gid: u32,
    pub link_target: Option<Seq<char>>,
    pub rdev_major: u32,
    pub rdev_minor: u32,
    pub hard_link_first_ndx: i32,
    pub dev: u64,
    pub ino: u64,
    pub checksum: Option<Seq<u8>>,
}

/// The characters of an optional string.
pub open spec fn opt_text(s: Option<String>) -> Option<Seq<char>> {
    match s {
        Some(t) => Some(t@),
        None => None,
    }
}

/// The bytes of an optional byte vector.
pub open spec fn opt_bytes(s: Option<Vec<u8>>) -> Option<Seq<u8>> {
    match s {
        Some(t) => Some(t@),
        None => None,
    }
}

impl View for FileInfo {
    type V = FileEntry;

    open spec fn view(&self) -> FileEntry {
        FileEntry {
            name: self.name@,
            dirname: opt_text(self.dirname),
            modtime: self.modtime,
            mod_nsec: self.mod_nsec,
            size: self.size,
            mode: self.mode,
            flags: self.flags,
            uid: self.uid,
            gid: self.gid,
            link_target: opt_text(self.link_target),
            rdev_major: self.rdev_major,
            rdev_minor: self.rdev_minor,
            hard_link_first_ndx: self.hard_link_first_ndx,
            dev: self.dev,
            ino: self.ino,
            checksum: opt_bytes(self.checksum),
        }
    }
}

impl FileEntry {
    /// The path: the directory, a slash and the name, or the name alone.
    pub open spec fn path(self) -> Seq<char> {
        match self.dirname {
            Some(d) => if d.len() > 0 {
                d + seq!['/'] + self.name
            } else {
                self.name
            },
            None => self.name,
        }
    }

    pub open spec fn file_type(self) -> FileType {
        file_type_of(self.mode)
    }
}

/// The entry without a name that all fields of a new one start from.
pub open spec fn blank_entry() -> FileEntry {
    FileEntry {
        name: Seq::empty(),
        dirname: None,
        modtime: 0,
        mod_nsec: 0,
        size: 0,
        mode: 0,
        flags: 0,
        uid: 0,
        gid: 0,
        link_target: None,
        rdev_major: 0,
        rdev_minor: 0,
        hard_link_first_ndx: NO_HARD_LINK,
        dev: 0,
        ino: 0,
        checksum: None,
    }
}

impl Default for FileInfo {
    fn default() -> (f: FileInfo)
        ensures
            f@ == blank_entry(),
    {
        FileInfo {
            name: String::new(),
            dirname: None,
            modtime: 0,
            mod_nsec: 0,
            size: 0,
            mode: 0,
            flags: 0,
            uid: 0,
            gid: 0,
            link_target: None,
            rdev_major: 0,
            rdev_minor: 0,
            hard_link_first_ndx: -1,
            dev: 0,
            ino: 0,
            checksum: None,
        }
    }
}

/// A copy of an optional string.
pub fn copy_text(s: &Option<String>) -> (t: Option<String>)
    ensures
        opt_text(t) == opt_text(*s),
{
    match s {
        Some(x) => Some(x.clone()),
        None => None,
    }
}

/// A copy of some bytes.
pub fn copy_bytes(s: &[u8]) -> (t: Vec<u8>)
    ensures
        t@ == s@,
{
    let mut t: Vec<u8> = Vec::new();
    t.extend_from_slice(s);
    assert(t@ =~= s@);
    t
}

/// A copy of optional bytes.
pub fn copy_opt_bytes(s: &Option<Vec<u8>>) -> (t: Option<Vec<u8>>)
    ensures
        opt_bytes(t) == opt_bytes(*s),
{
    match s {
        Some(x) => Some(copy_bytes(x.as_slice())),
        None => None,
    }
}

impl Clone for FileInfo {
    fn clone(&self) -> (f: FileInfo)
        ensures
            f@ == self@,
    {
        FileInfo {
            name: self.name.clone(),
            dirname: copy_text(&self.dirname),
            modtime: self.modtime,
            mod_nsec: self.mod_nsec,
            size: self.size,
            mode: self.mode,
            flags: self.flags,
            uid: self.uid,
            gid: self.gid,
            link_target: copy_text(&self.link_target),
            rdev_major: self.rdev_major,
            rdev_minor: self.rdev_minor,
            hard_link_first_ndx: self.hard_link_first_ndx,
            dev: self.dev,
            ino: self.ino,
            checksum: copy_opt_bytes(&self.checksum),
        }
    }
}

impl FileInfo {
    /// The path relative to the root of the transfer.
    pub fn path(&self) -> (p: String)
        ensures
            p@ == self@.path(),
    {
        match &self.dirname {
            Some(d) => {
                if d.as_str().is_empty() {
                    self.name.clone()
                } else {
                    let mut p: String = d.clone();
                    p.push('/');
                    p.push_str(self.name.as_str());
                    assert(p@ =~= self@.path());
                    p
                }
            },
            None => self.name.clone(),
        }
    }

    /// The kind of file this is.
    pub fn file_type(&self) -> (t: FileType)
        ensures
            t == self@.file_type(),
    {
        FileType::from_mode(self.mode)
    }

    pub fn is_dir(&self) -> (b: bool)
        ensures
            b == (self@.file_type() == FileType::Dir),
    {
        self.file_type().is_dir()
    }

    pub fn is_regular(&self) -> (b: bool)
        ensures
            b == (self@.file_type() == FileType::Regular),
    {
        self.file_type().is_regular()
    }

    pub fn is_symlink(&self) -> (b: bool)
        ensures
            b == (self@.file_type() == FileType::Symlink),
    {
        self.file_type().is_symlink()
    }
}

/// The position of the last slash of a path.
pub open spec fn last_slash(path: Seq<char>) -> Option<int>
    decreases path.len(),
{
    if path.len() == 0 {
        None
    } else if path.last() == '/' {
        Some(path.len() - 1)
    } else {
        last_slash(path.drop_last())
    }
}

/// The directory part of a path, where it has a slash.
pub open spec fn dir_part(path: Seq<char>) -> Option<Seq<char>> {
    match last_slash(path) {
        Some(p) => Some(path.take(p)),
        None => None,
    }
}

/// The part of a path behind its last slash.
pub open spec fn base_part(path: Seq<char>) -> Seq<char> {
    match last_slash(path) {
        Some(p) => path.skip(p + 1),
        None => path,
    }
}

pub proof fn lemma_last_slash(path: Seq<char>)
    ensures
        match last_slash(path) {
            Some(p) => 0 <= p < path.len() && path[p] == '/' && !path.skip(p + 1).contains('/'),
            None => !path.contains('/'),
        },
    decreases path.len(),
{
    if path.len() > 0 {
        let t = path.drop_last();
        if path.last() == '/' {
            assert(path.skip(path.len() as int) =~= Seq::<char>::empty());
        } else {
            lemma_last_slash(t);
            match last_slash(t) {
                Some(p) => {
                    let rest = path.skip(p + 1);
                    assert(rest =~= t.skip(p + 1).push(path.last()));
                    if rest.contains('/') {
                        let i = choose|i: int| 0 <= i < rest.len() && rest[i] == '/';
                        assert(t.skip(p + 1)[i] == '/');
                    }
                },
                None => {
                    if path.contains('/') {
                        let i = choose|i: int| 0 <= i < path.len() && path[i] == '/';
                        assert(t[i] == '/');
                    }
                },
            }
        }
    }
}

/// Splits a path at its last slash into directory and name.
pub fn split_rel(rel: &str) -> (parts: (Option<String>, String))
    ensures
        opt_text(parts.0) == dir_part(rel@),
        parts.1@ == base_part(rel@),
{
    let chars: Vec<char> = chars_of(rel);
    let mut p: usize = chars.len();
    assert(chars@.take(p as int) =~= chars@);
    while p > 0
        invariant
            p <= chars@.len(),
            chars@ == rel@,
            last_slash(chars@.take(p as int)) == last_slash(rel@),
        decreases p,
    {
        let ghost t = chars@.take(p as int);
        assert(t.last() == chars@[p - 1]);
        assert(t.drop_last() =~= chars@.take(p - 1));
        if chars[p - 1] == '/' {
            let dir: String = string_of(chars.as_slice().split_at(p - 1).0);
            let base: String = string_of(chars.as_slice().split_at(p).1);
            assert(base@ =~= rel@.skip(p as int));
            return (Some(dir), base);
        }
        p = p - 1;
    }
    (None, string_of(chars.as_slice()))
}

// ---------------------------------------------------------------------------
// File lists
// ---------------------------------------------------------------------------

/// The files of a transfer.
#[derive(Debug)]
pub struct FileList {
    pub files: Vec<FileInfo>,
    /// The order in which the files are sent, as positions in `files`; empty
    /// where that is their own order.
    pub sorted: Vec<usize>,
    /// The protocol index of `files[0]`.
    pub ndx_start: i32,
    pub flist_num: i32,
    pub parent_ndx: i32,
    pub in_progress: bool,
    pub to_redo: bool,
}

/// The models of some file entries.
pub open spec fn entries(files: Seq<FileInfo>) -> Seq<FileEntry> {
    Seq::new(files.len(), |i: int| files[i]@)
}

impl Default for FileList {
    fn default() -> (l: FileList)
        ensures
            l.files@ == Seq::<FileInfo>::empty(),
            l.sorted@ == Seq::<usize>::empty(),
            l.ndx_start == 0,
            l.flist_num == 0,
            l.parent_ndx == 0,
            !l.in_progress,
            !l.to_redo,
    {
        FileList {
            files: Vec::new(),
            sorted: Vec::new(),
            ndx_start: 0,
            flist_num: 0,
            parent_ndx: 0,
            in_progress: false,
            to_redo: false,
        }
    }
}

impl FileList {
    /// Whether the positions in `sorted` name files of the list.
    pub open spec fn wf(self) -> bool {
        forall|i: int| 0 <= i < self.sorted@.len() ==> (#[trigger] self.sorted@[i]) < self.files@.len()
    }

    /// The list without files.
    pub fn new() -> (l: FileList)
        ensures
            l.files@ == Seq::<FileInfo>::empty(),
            l.sorted@ == Seq::<usize>::empty(),
            l.ndx_start == 0,
            l.flist_num == 0,
            l.parent_ndx == 0,
            !l.in_progress,
            !l.to_redo,
    {
        FileList::default()
    }

    pub fn len(&self) -> (n: usize)
        ensures
            n == self.files@.len(),
    {
        self.files.len()
    }

    pub fn is_empty(&self) -> (b: bool)
        ensures
            b == (self.files@.len() == 0),
    {
        self.files.is_empty()
    }

    /// The protocol index of the first file.
    pub fn low(&self) -> (n: i32)
        ensures
            n == self.ndx_start,
    {
        self.ndx_start
    }

    /// The protocol index of the last file.
    pub fn high(&self) -> (n: i32)
        requires
            self.files@.len() <= i32::MAX,
            i32::MIN <= self.ndx_start + self.files@.len() - 1 <= i32::MAX,
        ensures
            n == self.ndx_start + self.files@.len() - 1,
    {
        (self.ndx_start as i64 + self.files.len() as i64 - 1) as i32
    }

    /// The file with the protocol index `ndx`.
    pub fn get_by_ndx(&self, ndx: i32) -> (f: Option<&FileInfo>)
        ensures
            match f {
                Some(f) => 0 <= ndx - self.ndx_start < self.files@.len() && *f == self.files@[ndx
                    - self.ndx_start],
                None => !(0 <= ndx - self.ndx_start < self.files@.len()),
            },
    {
        let i: i64 = ndx as i64 - self.ndx_start as i64;
        if i >= 0 && (i as u64) < self.files.len() as u64 {
            Some(&self.files[i as usize])
        } else {
            None
        }
    }
}

// ---------------------------------------------------------------------------
// Block sums
// ---------------------------------------------------------------------------

/// The checksums of one block of a file.
#[derive(Debug)]
pub struct SumBuf {
    /// Where the block starts.
    pub offset: i64,
    /// How long it is.
    pub len: i32,
    /// Its rolling checksum.
    pub sum1: u32,
    pub chain: i32,
    pub flags: i16,
    /// The first bytes of its strong checksum.
    pub sum2: Vec<u8>,
}

/// The model of a block's checksums.
#[verifier::ext_equal]
pub struct BlockSum {
    pub offset: i64,
    pub len: i32,
    pub sum1: u32,
    pub chain: i32,
    pub flags: i16,
    pub sum2: Seq<u8>,
}

impl View for SumBuf {
    type V = BlockSum;

    open spec fn view(&self) -> BlockSum {
        BlockSum {
            offset: self.offset,
            len: self.len,
            sum1: self.sum1,
            chain: self.chain,
            flags: self.flags,
            sum2: self.sum2@,
        }
    }
}

/// The models of some blocks' checksums.
pub open spec fn block_sums(sums: Seq<SumBuf>) -> Seq<BlockSum> {
    Seq::new(sums.len(), |i: int| sums[i]@)
}

impl Clone for SumBuf {
    fn clone(&self) -> (s: SumBuf)
        ensures
            s@ == self@,
    {
        SumBuf {
            offset: self.offset,
            len: self.len,
            sum1: self.sum1,
            chain: self.chain,
            flags: self.flags,
            sum2: copy_bytes(self.sum2.as_slice()),
        }
    }
}

impl Default for SumBuf {
    fn default() -> (s: SumBuf)
        ensures
            s@ == (BlockSum {
                offset: 0,
                len: 0,
                sum1: 0,
                chain: 0,
                flags: 0,
                sum2: Seq::empty(),
            }),
    {
        SumBuf { offset: 0, len: 0, sum1: 0, chain: 0, flags: 0, sum2: Vec::new() }
    }
}

/// What goes over the wire before the checksums of a file's blocks.
#[derive(Debug, Clone, Copy, PartialEq, Eq, Structural)]
pub struct SumHead {
    /// How many blocks there are.
    pub count: i32,
    /// How long every block but the last is.
    pub blength: i32,
    /// How long the last block is; zero where it is as long as the others.
    pub remainder: i32,
    /// How many bytes of each strong checksum are sent.
    pub s2length: i32,
}

impl Default for SumHead {
    fn default() -> (h: SumHead)
        ensures
            h == (SumHead { count: 0, blength: 0, remainder: 0, s2length: 0 }),
    {
        SumHead { count: 0, blength: 0, remainder: 0, s2length: 0 }
    }
}

/// All the checksums of a file.
#[derive(Debug)]
pub struct SumStruct {
    pub flength: i64,
    pub sums: Vec<SumBuf>,
    pub blength: i32,
    pub remainder: i32,
    pub s2length: i32,
}

impl Default for SumStruct {
    fn default() -> (s: SumStruct)
        ensures
            s.flength == 0,
            s.sums@ == Seq::<SumBuf>::empty(),
            s.blength == 0,
            s.remainder == 0,
            s.s2length == 0,
    {
        SumStruct { flength: 0, sums: Vec::new(), blength: 0, remainder: 0, s2length: 0 }
    }
}

impl SumStruct {
    /// How many blocks there are.
    pub fn count(&self) -> (n: i32)
        requires
            self.sums@.len() <= i32::MAX,
        ensures
            n == self.sums@.len(),
    {
        self.sums.len() as i32
    }

    /// The header for these checksums.
    pub fn head(&self) -> (h: SumHead)
        requires
            self.sums@.len() <= i32::MAX,
        ensures
            h == (SumHead {
                count: self.sums@.len() as i32,
                blength: self.blength,
                remainder: self.remainder,
                s2length: self.s2length,
            }),
    {
        SumHead {
            count: self.count(),
            blength: self.blength,
            remainder: self.remainder,
            s2length: self.s2length,
        }
    }
}

// ---------------------------------------------------------------------------
// File windows, statistics, filter rules
// ---------------------------------------------------------------------------

/// A window over the contents of a file.
#[derive(Debug)]
pub struct MapStruct {
    pub file_size: i64,
    /// Where the window starts in the file.
    pub p_offset: i64,
    /// Where the file descriptor stands.
    pub p_fd_offset: i64,
    /// The bytes in the window.
    pub data: Vec<u8>,
    /// How large a window is asked for.
    pub def_window_size: i32,
    /// How many bytes of `data` are valid.
    pub p_len: i32,
    pub fd: i32,
    pub status: i32,
}

impl MapStruct {
    /// A window over the file `fd` with nothing read yet.
    pub fn new(fd: i32, file_size: i64, window_size: i32) -> (m: MapStruct)
        ensures
            m.file_size == file_size,
            m.p_offset == 0,
            m.p_fd_offset == 0,
            m.data@ == Seq::<u8>::empty(),
            m.def_window_size == window_size,
            m.p_len == 0,
            m.fd == fd,
            m.status == 0,
    {
        MapStruct {
            file_size,
            p_offset: 0,
            p_fd_offset: 0,
            data: Vec::new(),
            def_window_size: window_size,
            p_len: 0,
            fd,
            status: 0,
        }
    }
}

/// What a run of the program has done.
#[derive(Debug, Clone, Copy, PartialEq, Eq, Structural)]
pub struct Stats {
    pub total_size: i64,
    pub total_transferred_size: i64,
    pub total_written: i64,
    pub total_read: i64,
    pub literal_data: i64,
    pub matched_data: i64,
    /// Milliseconds spent building the file list.
    pub flist_buildtime: i64,
    /// Milliseconds spent sending the file list.
    pub flist_xfertime: i64,
    pub flist_size: i64,
    pub num_files: i32,
    pub num_dirs: i32,
    pub num_symlinks: i32,
    pub num_devices: i32,
    pub num_specials: i32,
    pub created_files: i32,
    pub created_dirs: i32,
    pub created_symlinks: i32,
    pub created_devices: i32,
    pub created_specials: i32,
    pub deleted_files: i32,
    pub deleted_dirs: i32,
    pub deleted_symlinks: i32,
    pub deleted_devices: i32,
    pub deleted_specials: i32,
    pub xferred_files: i32,
}

/// The statistics of a run that has done nothing.
pub open spec fn no_stats() -> Stats {
    Stats {
        total_size: 0,
        total_transferred_size: 0,
        total_written: 0,
        total_read: 0,
        literal_data: 0,
        matched_data: 0,
        flist_buildtime: 0,
        flist_xfertime: 0,
        flist_size: 0,
        num_files: 0,
        num_dirs: 0,
        num_symlinks: 0,
        num_devices: 0,
        num_specials: 0,
        created_files: 0,
        created_dirs: 0,
        created_symlinks: 0,
        created_devices: 0,
        created_specials: 0,
        deleted_files: 0,
        deleted_dirs: 0,
        deleted_symlinks: 0,
        deleted_devices: 0,
        deleted_specials: 0,
        xferred_files: 0,
    }
}

impl Default for Stats {
    fn default() -> (s: Stats)
        ensures
            s == no_stats(),
    {
        Stats {
            total_size: 0,
            total_transferred_size: 0,
            total_written: 0,
            total_read: 0,
            literal_data: 0,
            matched_data: 0,
            flist_buildtime: 0,
            flist_xfertime: 0,
            flist_size: 0,
            num_files: 0,
            num_dirs: 0,
            num_symlinks: 0,
            num_devices: 0,
            num_specials: 0,
            created_files: 0,
            created_dirs: 0,
            created_symlinks: 0,
            created_devices: 0,
            created_specials: 0,
            deleted_files: 0,
            deleted_dirs: 0,
            deleted_symlinks: 0,
            deleted_devices: 0,
            deleted_specials: 0,
            xferred_files: 0,
        }
    }
}

/// How often a character occurs in a text.
pub open spec fn char_count(s: Seq<char>, c: char) -> nat
    decreases s.len(),
{
    if s.len() == 0 {
        0
    } else {
        char_count(s.drop_last(), c) + if s.last() == c {
            1nat
        } else {
            0nat
        }
    }
}

/// Counts how often a character occurs.
pub fn count_char(s: &[char], c: char) -> (n: usize)
    ensures
        n == char_count(s@, c),
        n <= s@.len(),
{
    let mut n: usize = 0;
    let mut i: usize = 0;
    assert(s@.take(0) =~= Seq::<char>::empty());
    while i < s.len()
        invariant
            n <= i <= s@.len(),
            n == char_count(s@.take(i as int), c),
        decreases s@.len() - i,
    {
        assert(s@.take(i + 1).drop_last() =~= s@.take(i as int));
        if s[i] == c {
            n = n + 1;
        }
        i = i + 1;
    }
    assert(s@.take(i as int) =~= s@);
    n
}

/// One rule of a filter list.
#[derive(Debug)]
pub struct FilterRule {
    pub pattern: String,
    /// `RULE_*` bits.
    pub rflags: u32,
    /// How many slashes the pattern has.
    pub slash_cnt: i32,
    /// The list that a merge rule stands for.
    pub mergelist: Option<Box<FilterRuleList>>,
    pub elide: u8,
}

/// A list of filter rules.
#[derive(Debug)]
pub struct FilterRuleList {
    pub rules: Vec<FilterRule>,
    /// What the list is called in messages.
    pub debug_type: String,
}

impl FilterRule {
    /// A rule for `pattern`.
    pub fn new(pattern: String, rflags: u32) -> (r: FilterRule)
        requires
            pattern@.len() <= i32::MAX,
        ensures
            r.pattern == pattern,
            r.rflags == rflags,
            r.slash_cnt == char_count(pattern@, '/'),
            r.mergelist is None,
            r.elide == 0,
    {
        let chars: Vec<char> = chars_of(pattern.as_str());
        let n: usize = count_char(chars.as_slice(), '/');
        FilterRule { pattern, rflags, slash_cnt: n as i32, mergelist: None, elide: 0 }
    }
}

/// Whether two rules say the same, with the lists that they stand for.
pub open spec fn same_rule(a: FilterRule, b: FilterRule) -> bool
    decreases a,
{
    &&& a.pattern@ == b.pattern@
    &&& a.rflags == b.rflags
    &&& a.slash_cnt == b.slash_cnt
    &&& a.elide == b.elide
    &&& match (a.mergelist, b.mergelist) {
        (None, None) => true,
        (Some(x), Some(y)) => same_list(*x, *y),
        _ => false,
    }
}

/// Whether two lists hold rules that say the same, under the same name.
pub open spec fn same_list(a: FilterRuleList, b: FilterRuleList) -> bool
    decreases a,
{
    &&& a.debug_type@ == b.debug_type@
    &&& a.rules@.len() == b.rules@.len()
    &&& forall|i: int| 0 <= i < a.rules@.len() ==> same_rule(#[trigger] a.rules@[i], b.rules@[i])
}

impl FilterRule {
    fn copied(&self) -> (r: FilterRule)
        ensures
            same_rule(*self, r),
        decreases self,
    {
        let mergelist: Option<Box<FilterRuleList>> = match &self.mergelist {
            Some(l) => Some(Box::new(l.copied())),
            None => None,
        };
        FilterRule {
            pattern: self.pattern.clone(),
            rflags: self.rflags,
            slash_cnt: self.slash_cnt,
            mergelist,
            elide: self.elide,
        }
    }
}

impl FilterRuleList {
    fn copied(&self) -> (l: FilterRuleList)
        ensures
            same_list(*self, l),
        decreases self,
    {
        let mut rules: Vec<FilterRule> = Vec::new();
        let mut i: usize = 0;
        while i < self.rules.len()
            invariant
                i <= self.rules@.len(),
                rules@.len() == i,
                forall|k: int| 0 <= k < i ==> same_rule(#[trigger] self.rules@[k], rules@[k]),
            decreases self.rules@.len() - i,
        {
            let r: FilterRule = self.rules[i].copied();
            rules.push(r);
            i = i + 1;
        }
        FilterRuleList { rules, debug_type: self.debug_type.clone() }
    }
}

impl Clone for FilterRule {
    /// The same rule again.
    fn clone(&self) -> (r: FilterRule)
        ensures
            same_rule(*self, r),
    {
        self.copied()
    }
}

impl Clone for FilterRuleList {
    /// The same list again.
    fn clone(&self) -> (l: FilterRuleList)
        ensures
            same_list(*self, l),
    {
        self.copied()
    }
}

impl Default for FilterRuleList {
    /// A list without rules and without a name.
    fn default() -> (l: FilterRuleList)
        ensures
            l.rules@ == Seq::<FilterRule>::empty(),
            l.debug_type@ == Seq::<char>::empty(),
    {
        FilterRuleList { rules: Vec::new(), debug_type: String::new() }
    }
}

impl FilterRuleList {
    /// A list without rules.
    pub fn new(debug_type: String) -> (l: FilterRuleList)
        ensures
            l.rules@ == Seq::<FilterRule>::empty(),
            l.debug_type == debug_type,
    {
        FilterRuleList { rules: Vec::new(), debug_type }
    }

    /// Adds a rule at the end.
    pub fn push(&mut self, rule: FilterRule)
        ensures
            final(self).rules@ == old(self).rules@.push(rule),
            final(self).debug_type == old(self).debug_type,
    {
        self.rules.push(rule);
    }

    pub fn is_empty(&self) -> (b: bool)
        ensures
            b == (self.rules@.len() == 0),
    {
        self.rules.is_empty()
    }
}

// Bits of `FilterRule::rflags`.
pub const RULE_EXCLUDE: u32 = 1;
pub const RULE_INCLUDE: u32 = 2;
pub const RULE_CLEAR: u32 = 4;
pub const RULE_MERGE_FILE: u32 = 8;
pub const RULE_PERDIR_MERGE: u32 = 0x10;
pub const RULE_EXCLUDE_PERISHABLE: u32 = 0x20;
pub const RULE_ANCHORED: u32 = 0x40;
pub const RULE_WILD: u32 = 0x80;
pub const RULE_WILD2: u32 = 0x100;
pub const RULE_WILD2_PREFIX: u32 = 0x200;
pub const RULE_WILD3: u32 = 0x400;
pub const RULE_DIRECTORY: u32 = 0x800;
pub const RULE_ABS_PATH: u32 = 0x1000;
pub const RULE_NEGATE: u32 = 0x2000;
pub const RULE_CVS_IGNORE: u32 = 0x4000;
pub const RULE_SENDER_SIDE: u32 = 0x8000;
pub const RULE_RECEIVER_SIDE: u32 = 0x10000;
pub const RULE_RISK_SOURCE: u32 = 0x20000;
pub const RULE_LIMIT_XATTR: u32 = 0x40000;
pub const RULE_NEVER_EXCLUDE: u32 = 0x80000;

} // verus!
