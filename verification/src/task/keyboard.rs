//! The console's in-memory file store and its path arithmetic.  The
//! keyboard stream, the scancode queue and the command loop are interrupt
//! and console plumbing and live with the machine-facing code.
use vstd::prelude::*;

verus! {

/// The path separator.
pub const FS_SEP: char = '/';

/// A file held in memory: either a static asset baked into the kernel
/// image or bytes typed at the console.
pub enum MemoryFile {
    Static(&'static [u8]),
    Dynamic(Vec<u8>),
}

/// The bytes of a file.
pub open spec fn file_bytes(f: &MemoryFile) -> Seq<u8> {
    match f {
        MemoryFile::Static(r) => r@,
        MemoryFile::Dynamic(v) => v@,
    }
}

impl MemoryFile {
    /// Borrow the file's bytes.
    pub fn as_ref(&self) -> (r: &[u8])
        ensures
            r@ == file_bytes(self),
    {
        match self {
            MemoryFile::Static(r) => r,
            MemoryFile::Dynamic(v) => v.as_slice(),
        }
    }
}

/// The in-memory file store: an association list from paths to files.
/// The newest entry for a path shadows any older one, so insertion
/// overwrites as a map would.
pub struct MemoryFs {
    pub entries: Vec<(String, MemoryFile)>,
}

/// The file stored first under `path`, the one every query sees.
pub open spec fn fs_lookup(entries: Seq<(String, MemoryFile)>, path: Seq<char>) -> Option<
    Seq<u8>,
>
    decreases entries.len(),
{
    if entries.len() == 0 {
        None
    } else if entries[0].0@ == path {
        Some(file_bytes(&entries[0].1))
    } else {
        fs_lookup(entries.drop_first(), path)
    }
}

impl MemoryFs {
    /// An empty store.
    pub fn new() -> (r: Self)
        ensures
            r.entries@.len() == 0,
    {
        MemoryFs { entries: Vec::new() }
    }

    /// Store `file` under `path`, shadowing any earlier entry.
    pub fn insert(&mut self, path: String, file: MemoryFile)
        ensures
            final(self).entries@ == old(self).entries@.insert(0, (path, file)),
            fs_lookup(final(self).entries@, path@) == Some(file_bytes(&file)),
            forall|q: Seq<char>|
                q != path@ ==> fs_lookup(final(self).entries@, q) == fs_lookup(
                    old(self).entries@,
                    q,
                ),
    {
        self.entries.insert(0, (path, file));
        proof {
            assert(self.entries@.drop_first() =~= old(self).entries@);
        }
    }

    /// Look up the bytes stored under `path`.
    pub fn get(&self, path: &str) -> (r: Option<&MemoryFile>)
        ensures
            match r {
                Some(f) => fs_lookup(self.entries@, path@) == Some(file_bytes(f)),
                None => fs_lookup(self.entries@, path@) is None,
            },
    {
        let ghost s = self.entries@;
        proof {
            assert(s.skip(0) =~= s);
        }
        let mut i: usize = 0;
        while i < self.entries.len()
            invariant
                s == self.entries@,
                i <= s.len(),
                fs_lookup(s, path@) == fs_lookup(s.skip(i as int), path@),
            decreases s.len() - i,
        {
            proof {
                assert(s.skip(i as int)[0] == s[i as int]);
                assert(s.skip(i as int).drop_first() =~= s.skip(i + 1));
            }
            if crate::vga_buffer::str_eq(self.entries[i].0.as_str(), path) {
                return Some(&self.entries[i].1);
            }
            i = i + 1;
        }
        proof {
            assert(s.skip(s.len() as int) =~= Seq::<(String, MemoryFile)>::empty());
        }
        None
    }
}

/// Seed the file store with the boot assets under their canonical paths.
/// The asset bytes come from whoever linked them into the image.
pub fn init_memory_fs(
    wallpaper: &'static [u8],
    anime: &'static [u8],
    anime2: &'static [u8],
    car: &'static [u8],
) -> (r: MemoryFs)
    ensures
        fs_lookup(r.entries@, "/wallpaper"@) == Some(wallpaper@),
        fs_lookup(r.entries@, "/anime"@) == Some(anime@),
        fs_lookup(r.entries@, "/anime2"@) == Some(anime2@),
        fs_lookup(r.entries@, "/car"@) == Some(car@),
{
    let mut fs = MemoryFs::new();
    fs.insert(String::from_str("/wallpaper"), MemoryFile::Static(wallpaper));
    fs.insert(String::from_str("/anime"), MemoryFile::Static(anime));
    fs.insert(String::from_str("/anime2"), MemoryFile::Static(anime2));
    fs.insert(String::from_str("/car"), MemoryFile::Static(car));
    proof {
        assert("/wallpaper"@ != "/anime"@ && "/wallpaper"@ != "/anime2"@ && "/wallpaper"@
            != "/car"@ && "/anime"@ != "/anime2"@ && "/anime"@ != "/car"@ && "/anime2"@
            != "/car"@) by {
            reveal_strlit("/wallpaper");
            reveal_strlit("/anime");
            reveal_strlit("/anime2");
            reveal_strlit("/car");
            assert("/wallpaper"@.len() == 10 && "/anime"@.len() == 6 && "/anime2"@.len() == 7
                && "/car"@.len() == 4);
        }
    }
    fs
}

/// Whether a path begins with the separator.
pub open spec fn starts_with_sep(s: Seq<char>) -> bool {
    s.len() > 0 && s[0] == FS_SEP
}

/// Whether a path ends with the separator.
pub open spec fn ends_with_sep(s: Seq<char>) -> bool {
    s.len() > 0 && s[s.len() - 1] == FS_SEP
}

/// The joined path: `next` absolute stands alone, otherwise it is
/// appended to `path` with exactly one separator between them; a trailing
/// separator is dropped.
pub open spec fn join_paths_spec(path: Seq<char>, next: Seq<char>) -> Seq<char> {
    let base = if starts_with_sep(next) {
        Seq::<char>::empty()
    } else if ends_with_sep(path) {
        path
    } else {
        path.push(FS_SEP)
    };
    let full = base + next;
    if ends_with_sep(full) {
        full.drop_last()
    } else {
        full
    }
}

/// Join `next` onto `path` into `out`.
pub fn join_paths(path: &str, next: &str, out: &mut String)
    ensures
        final(out)@ == join_paths_spec(path@, next@),
{
    let mut result = String::new();
    let next_len = next.unicode_len();
    let next_absolute = next_len > 0 && next.get_char(0) == FS_SEP;
    if !next_absolute {
        result.append(path);
        let path_len = path.unicode_len();
        if !(path_len > 0 && path.get_char(path_len - 1) == FS_SEP) {
            result.append("/");
            proof {
                reveal_strlit("/");
                assert(result@ =~= path@.push(FS_SEP));
            }
        }
    }
    result.append(next);
    proof {
        if next_absolute {
            assert(result@ =~= Seq::<char>::empty() + next@);
        } else {
            let base = if ends_with_sep(path@) {
                path@
            } else {
                path@.push(FS_SEP)
            };
            assert(result@ =~= base + next@);
        }
    }
    let full_len = result.unicode_len();
    if full_len > 0 && result.as_str().get_char(full_len - 1) == FS_SEP {
        let trimmed = String::from_str(result.as_str().substring_char(0, full_len - 1));
        proof {
            assert(trimmed@ =~= result@.drop_last());
        }
        *out = trimmed;
    } else {
        *out = result;
    }
}

} // verus!
